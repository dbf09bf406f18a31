//! Sv39 page table entries and the three-level page tables built of them.
use vstd::prelude::*;

verus! {

use std::collections::BTreeMap;
use super::address::{PhysAddr, PhysPageNum, PPN_MASK, VirtAddr, VirtPageNum, vpn_indexes};
use crate::kernel::config::PAGE_SIZE;
use super::frame_allocator::{FrameTracker, StackFrameAllocator, frame_alloc, frames_within, free_frames};
use super::memory::PhysMemory;

broadcast use {vstd::laws_cmp::group_laws_cmp, vstd::std_specs::btree::group_btree_axioms};

use vstd::std_specs::btree::spec_keys_iter;
use vstd::std_specs::iter::IteratorSpec;

pub const PTE_V: u8 = 1;

pub const PTE_R: u8 = 2;

pub const PTE_W: u8 = 4;

pub const PTE_X: u8 = 8;

pub const PTE_U: u8 = 16;

pub const PTE_G: u8 = 32;

pub const PTE_A: u8 = 64;

pub const PTE_D: u8 = 128;

/// The eight flag bits of a page table entry: valid, readable, writable,
/// executable, user, global, accessed, dirty.
#[derive(Clone, Copy, Debug, PartialEq, Eq, Structural)]
pub struct PTEFlags {
    pub bits: u8,
}

impl PTEFlags {
    pub fn empty() -> (r: Self)
        ensures
            r.bits == 0,
    {
        PTEFlags { bits: 0 }
    }

    /// Every bit pattern is a set of known flags.
    pub fn from_bits(bits: u8) -> (r: Option<Self>)
        ensures
            r == Some(PTEFlags { bits }),
    {
        Some(PTEFlags { bits })
    }

    pub fn union(self, other: Self) -> (r: Self)
        ensures
            r.bits == self.bits | other.bits,
    {
        PTEFlags { bits: self.bits | other.bits }
    }

    pub fn intersection(self, other: Self) -> (r: Self)
        ensures
            r.bits == self.bits & other.bits,
    {
        PTEFlags { bits: self.bits & other.bits }
    }
}

/// A 64-bit Sv39 page table entry: flags in bits 0..8, the physical page
/// number in bits 10..54.
#[derive(Clone, Copy, Debug, PartialEq, Eq, Structural)]
pub struct PageTableEntry {
    pub bits: u64,
}

/// The physical page number an entry holds.
pub open spec fn pte_ppn(bits: u64) -> usize {
    ((bits >> 10u64) & PPN_MASK) as usize
}

/// Whether flag bit `flag` is set in an entry.
pub open spec fn pte_has(bits: u64, flag: u8) -> bool {
    (bits as u8) & flag != 0
}

impl PageTableEntry {
    pub fn new(ppn: PhysPageNum, flags: PTEFlags) -> (r: Self)
        ensures
            r.bits == ((ppn.0 as u64) << 10u64) | (flags.bits as u64),
    {
        PageTableEntry { bits: ((ppn.0 as u64) << 10u64) | (flags.bits as u64) }
    }

    pub fn empty() -> (r: Self)
        ensures
            r.bits == 0,
    {
        PageTableEntry { bits: 0 }
    }

    pub fn ppn(&self) -> (r: PhysPageNum)
        ensures
            r.0 == pte_ppn(self.bits),
    {
        PhysPageNum(((self.bits >> 10u64) & PPN_MASK) as usize)
    }

    pub fn flags(&self) -> (r: PTEFlags)
        ensures
            r.bits == self.bits as u8,
    {
        match PTEFlags::from_bits(self.bits as u8) {
            Some(f) => f,
            None => PTEFlags::empty(),
        }
    }

    pub fn is_valid(&self) -> (r: bool)
        ensures
            r == pte_has(self.bits, PTE_V),
    {
        self.flags().intersection(PTEFlags { bits: PTE_V }).bits != PTEFlags::empty().bits
    }

    pub fn readable(&self) -> (r: bool)
        ensures
            r == pte_has(self.bits, PTE_R),
    {
        self.flags().intersection(PTEFlags { bits: PTE_R }).bits != PTEFlags::empty().bits
    }

    pub fn writable(&self) -> (r: bool)
        ensures
            r == pte_has(self.bits, PTE_W),
    {
        self.flags().intersection(PTEFlags { bits: PTE_W }).bits != PTEFlags::empty().bits
    }

    pub fn executable(&self) -> (r: bool)
        ensures
            r == pte_has(self.bits, PTE_X),
    {
        self.flags().intersection(PTEFlags { bits: PTE_X }).bits != PTEFlags::empty().bits
    }

    /// A leaf maps a page: it grants read, write or execute access.
    pub fn is_leaf(&self) -> (r: bool)
        ensures
            r == (pte_has(self.bits, PTE_R) || pte_has(self.bits, PTE_W) || pte_has(
                self.bits,
                PTE_X,
            )),
    {
        let r = self.readable();
        let w = self.writable();
        let x = self.executable();
        r || w || x
    }
}

/// An entry built from a page number and flags gives both back.
pub proof fn lemma_pte_round_trip(ppn: usize, flags: u8)
    requires
        ppn <= PPN_MASK,
    ensures
        pte_ppn(((ppn as u64) << 10u64) | (flags as u64)) == ppn,
        (((ppn as u64) << 10u64) | (flags as u64)) as u8 == flags,
{
    let p = ppn as u64;
    let f = flags as u64;
    assert(((p << 10u64) | f) >> 10u64 & 0xfff_ffff_ffffu64 == p) by (bit_vector)
        requires
            p <= 0xfff_ffff_ffffu64,
            f < 256u64,
    ;
    assert((((p << 10u64) | f) as u8) == f as u8) by (bit_vector)
        requires
            f < 256u64,
    ;
}


/// The page number field of an entry fits in 44 bits.
pub proof fn lemma_ppn_bound(bits: u64)
    ensures
        pte_ppn(bits) <= PPN_MASK,
{
    assert((bits >> 10u64) & 0xfff_ffff_ffffu64 <= 0xfff_ffff_ffffu64) by (bit_vector);
}

/// The flag byte of an entry is what was put in its low bits, whatever the page number.
proof fn lemma_low_bits(x: u64, flags: u8)
    ensures
        ((x << 10u64) | (flags as u64)) as u8 == flags,
{
    let f = flags as u64;
    assert((((x << 10u64) | f) as u8) == f as u8) by (bit_vector)
        requires
            f < 256u64,
    ;
}

/// Whether an entry is valid.
pub open spec fn pte_valid(bits: u64) -> bool {
    pte_has(bits, PTE_V)
}

/// The page that entry `i` of page `p` points to, when that entry is valid.
pub open spec fn child_of(mem: PhysMemory, p: usize, i: int) -> Option<usize> {
    if pte_valid(mem.entry(p as int, i)) {
        Some(pte_ppn(mem.entry(p as int, i)))
    } else {
        None
    }
}

/// The last-level page reached from `root` through indexes `i0` and `i1`.
pub open spec fn leaf_table(mem: PhysMemory, root: usize, i0: int, i1: int) -> Option<usize> {
    match child_of(mem, root, i0) {
        Some(p1) => child_of(mem, p1, i1),
        None => None,
    }
}

/// The directory page reached from `root` by following the indexes of
/// `path` (at most two of them).
pub open spec fn node_at(mem: PhysMemory, root: usize, path: Seq<int>) -> Option<usize> {
    if path.len() == 0 {
        Some(root)
    } else if path.len() == 1 {
        child_of(mem, root, path[0])
    } else {
        leaf_table(mem, root, path[0], path[1])
    }
}

/// The level-2 entry that a walk from `root` with indexes `i0`, `i1`, `i2`
/// ends at, if both directory entries on the way are valid.
pub open spec fn walk_at(mem: PhysMemory, root: usize, i0: int, i1: int, i2: int) -> Option<u64> {
    match leaf_table(mem, root, i0, i1) {
        Some(p2) => Some(mem.entry(p2 as int, i2)),
        None => None,
    }
}

/// The entry mapping the page with indexes `i0`, `i1`, `i2`, if it is valid.
pub open spec fn mapped_at(mem: PhysMemory, root: usize, i0: int, i1: int, i2: int) -> Option<u64> {
    match walk_at(mem, root, i0, i1, i2) {
        Some(e) => if pte_valid(e) {
            Some(e)
        } else {
            None
        },
        None => None,
    }
}

/// The level-2 entry that a walk for virtual page `vpn` ends at.
pub open spec fn walk(mem: PhysMemory, root: usize, vpn: int) -> Option<u64> {
    walk_at(mem, root, vpn_indexes(vpn)[0], vpn_indexes(vpn)[1], vpn_indexes(vpn)[2])
}

/// The valid entry mapping virtual page `vpn`, if any.
pub open spec fn mapping(mem: PhysMemory, root: usize, vpn: int) -> Option<u64> {
    mapped_at(mem, root, vpn_indexes(vpn)[0], vpn_indexes(vpn)[1], vpn_indexes(vpn)[2])
}

/// Every page a walk from `root` reads lies in `mem`.
pub open spec fn walkable(mem: PhysMemory, root: usize) -> bool {
    &&& mem.wf()
    &&& mem.has(root as int)
    &&& forall|i0: int|
        #![trigger child_of(mem, root, i0)]
        0 <= i0 < 512 && child_of(mem, root, i0) is Some ==> {
            let p1 = child_of(mem, root, i0)->0;
            &&& mem.has(p1 as int)
            &&& forall|i1: int|
                #![trigger child_of(mem, p1, i1)]
                0 <= i1 < 512 && child_of(mem, p1, i1) is Some ==> mem.has(
                    child_of(mem, p1, i1)->0 as int,
                )
        }
}

/// Valid entries among the first `n` entries of page `p`.
pub open spec fn valid_count(mem: PhysMemory, p: usize, n: int) -> nat
    decreases n,
{
    if n <= 0 {
        0
    } else {
        valid_count(mem, p, n - 1) + if pte_valid(mem.entry(p as int, n - 1)) {
            1nat
        } else {
            0nat
        }
    }
}

proof fn lemma_count_change(m1: PhysMemory, m2: PhysMemory, p: usize, i: int, n: int)
    requires
        forall|j: int| 0 <= j < 512 && j != i ==> m2.entry(p as int, j) == m1.entry(p as int, j),
        0 <= n <= 512,
    ensures
        valid_count(m2, p, n) + (if 0 <= i < n && pte_valid(m1.entry(p as int, i)) {
            1int
        } else {
            0int
        }) == valid_count(m1, p, n) + (if 0 <= i < n && pte_valid(m2.entry(p as int, i)) {
            1int
        } else {
            0int
        }),
    decreases n,
{
    if n > 0 {
        lemma_count_change(m1, m2, p, i, n - 1);
    }
}

proof fn lemma_count_zero(mem: PhysMemory, p: usize, n: int)
    requires
        forall|j: int| 0 <= j < 512 ==> mem.entry(p as int, j) == 0,
        0 <= n <= 512,
    ensures
        valid_count(mem, p, n) == 0,
    decreases n,
{
    if n > 0 {
        lemma_count_zero(mem, p, n - 1);
        lemma_zero_invalid();
    }
}

proof fn lemma_count_two(mem: PhysMemory, p: usize, i: int, j: int, n: int)
    requires
        0 <= i < 512,
        0 <= j < 512,
        i != j,
        0 <= n <= 512,
    ensures
        valid_count(mem, p, n) >= (if i < n && pte_valid(mem.entry(p as int, i)) {
            1int
        } else {
            0int
        }) + (if j < n && pte_valid(mem.entry(p as int, j)) {
            1int
        } else {
            0int
        }),
    decreases n,
{
    if n > 0 {
        lemma_count_two(mem, p, i, j, n - 1);
    }
}

proof fn lemma_zero_invalid()
    ensures
        !pte_valid(0u64),
{
    assert((0u64 as u8) & 1u8 == 0u8) by (bit_vector);
}

/// An entry built from `ppn` and flags with the valid bit is valid and points to `ppn`.
proof fn lemma_new_valid(ppn: usize, flags: u8)
    requires
        ppn <= PPN_MASK,
        flags & PTE_V != 0,
    ensures
        pte_valid(((ppn as u64) << 10u64) | (flags as u64)),
        pte_ppn(((ppn as u64) << 10u64) | (flags as u64)) == ppn,
{
    lemma_pte_round_trip(ppn, flags);
}


proof fn lemma_count_bound(mem: PhysMemory, p: usize, n: int)
    requires
        0 <= n,
    ensures
        valid_count(mem, p, n) <= n,
    decreases n,
{
    if n > 0 {
        lemma_count_bound(mem, p, n - 1);
    }
}

/// Whether following `s` from the root reads entry `i` of the page at `pi`.
pub open spec fn through(s: Seq<int>, pi: Seq<int>, i: int) -> bool {
    ||| pi.len() == 0 && s.len() >= 1 && s[0] == i
    ||| pi.len() == 1 && s.len() >= 2 && s[0] == pi[0] && s[1] == i
    ||| pi.len() == 2 && s.len() >= 3 && s[0] == pi[0] && s[1] == pi[1] && s[2] == i
}

/// Frames a mapping of `vpn` has to allocate for missing directory pages.
pub open spec fn frames_needed(mem: PhysMemory, root: usize, vpn: int) -> int {
    match child_of(mem, root, vpn_indexes(vpn)[0]) {
        None => 2,
        Some(p1) => if child_of(mem, p1, vpn_indexes(vpn)[1]) is None {
            1
        } else {
            0
        },
    }
}

/// From `(t0, fa0, m0)` to `(t1, fa1, m1)`: frames handed out stay handed
/// out, the pages of `t1` are those of `t0` and frames that were free, and
/// every frame handed out that is not a page of `t0` keeps its entries.
pub open spec fn others_kept(
    t0: PageTable,
    t1: PageTable,
    fa0: StackFrameAllocator,
    fa1: StackFrameAllocator,
    m0: PhysMemory,
    m1: PhysMemory,
) -> bool {
    &&& forall|q: usize| #[trigger] fa0.in_use().contains(q) ==> fa1.in_use().contains(q)
    &&& forall|d: usize| #[trigger] t1.dirs().contains(d) ==> t0.dirs().contains(d) || !fa0.in_use().contains(d)
    &&& forall|q: usize, j: int|
        #![trigger m1.entry(q as int, j)]
        m0.has(q as int) && fa0.in_use().contains(q) && !t0.dirs().contains(q) && 0 <= j < 512 ==> m1.entry(
            q as int,
            j,
        ) == m0.entry(q as int, j)
}

/// A three-level Sv39 page table: its root page and the directory pages it
/// owns, each with the number of valid entries it holds.
pub struct PageTable {
    root_ppn: PhysPageNum,
    dir_frames: BTreeMap<usize, FrameTracker>,
    paths: Ghost<Map<usize, Seq<int>>>,
}

impl PageTable {
    /// The root page.
    pub closed spec fn root(&self) -> usize {
        self.root_ppn.0
    }

    /// The directory pages owned by the table.
    pub closed spec fn dirs(&self) -> Set<usize> {
        self.paths@.dom()
    }

    /// The indexes that lead from the root to directory page `p`.
    pub closed spec fn path(&self, p: usize) -> Seq<int> {
        self.paths@[p]
    }

    /// The owned pages form the tree that `mem` describes: each is reached
    /// from the root by its path, every valid directory entry above the last
    /// level leads to an owned page one index further, and each page's
    /// count of valid entries is kept.
    pub closed spec fn wf(&self, mem: PhysMemory) -> bool {
        &&& mem.wf()
        &&& self.dirs().contains(self.root())
        &&& self.path(self.root()) == Seq::<int>::empty()
        &&& forall|p: usize|
            #[trigger] self.dirs().contains(p) ==> {
                &&& mem.has(p as int)
                &&& self.path(p).len() <= 2
                &&& forall|k: int| 0 <= k < self.path(p).len() ==> 0 <= #[trigger] self.path(p)[k] < 512
                &&& node_at(mem, self.root(), self.path(p)) == Some(p)
                &&& self.dir_frames@.contains_key(p)
                &&& self.dir_frames@[p].ppn.0 == p
                &&& self.dir_frames@[p].used == valid_count(mem, p, 512)
            }
        &&& forall|p: usize, i: int|
            #![trigger self.dirs().contains(p), child_of(mem, p, i)]
            self.dirs().contains(p) && self.path(p).len() < 2 && 0 <= i < 512 && child_of(mem, p, i)
                is Some ==> self.dirs().contains(child_of(mem, p, i)->0) && self.path(
                child_of(mem, p, i)->0,
            ) == self.path(p).push(i)
        &&& forall|k: usize| #[trigger] self.dir_frames@.contains_key(k) ==> self.dirs().contains(k)
        &&& self.dir_frames@[self.root()].fa == self.root_ppn
    }

    /// The frames of the owned pages are handed out by `fa`.
    pub open spec fn owned_by(&self, fa: StackFrameAllocator) -> bool {
        forall|p: usize| #[trigger] self.dirs().contains(p) ==> fa.in_use().contains(p)
    }

    /// The page reached by a path is the owned page with that path.
    proof fn lemma_reach(&self, mem: PhysMemory, s: Seq<int>)
        requires
            self.wf(mem),
            s.len() <= 2,
            forall|k: int| 0 <= k < s.len() ==> 0 <= #[trigger] s[k] < 512,
            node_at(mem, self.root(), s) is Some,
        ensures
            self.dirs().contains(node_at(mem, self.root(), s)->0),
            self.path(node_at(mem, self.root(), s)->0) == s,
    {
        let r = self.root();
        if s.len() == 1 {
            assert(self.dirs().contains(r) && child_of(mem, r, s[0]) is Some);
            assert(self.path(r).push(s[0]) =~= s);
        } else if s.len() == 2 {
            assert(self.dirs().contains(r) && child_of(mem, r, s[0]) is Some);
            let p1 = child_of(mem, r, s[0])->0;
            assert(self.path(p1) =~= seq![s[0]]);
            assert(self.dirs().contains(p1) && child_of(mem, p1, s[1]) is Some);
            assert(self.path(p1).push(s[1]) =~= s);
        }
    }

    /// A table in good shape can be walked.
    pub proof fn lemma_walkable(&self, mem: PhysMemory)
        requires
            self.wf(mem),
        ensures
            walkable(mem, self.root()),
    {
        let r = self.root();
        assert forall|i0: int|
            #![trigger child_of(mem, r, i0)]
            0 <= i0 < 512 && child_of(mem, r, i0) is Some implies {
                let p1 = child_of(mem, r, i0)->0;
                &&& mem.has(p1 as int)
                &&& forall|i1: int|
                    #![trigger child_of(mem, p1, i1)]
                    0 <= i1 < 512 && child_of(mem, p1, i1) is Some ==> mem.has(
                        child_of(mem, p1, i1)->0 as int,
                    )
            } by {
            assert(self.dirs().contains(r));
            let p1 = child_of(mem, r, i0)->0;
            assert(self.dirs().contains(p1));
            assert(self.path(p1) =~= seq![i0]);
            assert forall|i1: int|
                #![trigger child_of(mem, p1, i1)]
                0 <= i1 < 512 && child_of(mem, p1, i1) is Some implies mem.has(
                    child_of(mem, p1, i1)->0 as int,
                ) by {
                assert(self.dirs().contains(child_of(mem, p1, i1)->0));
            }
        }
    }

    /// Changing at most entry `i` of owned page `p` leaves every walk that
    /// does not read that entry as it was.
    proof fn lemma_same_walks(&self, m1: PhysMemory, m2: PhysMemory, p: usize, i: int)
        requires
            self.wf(m1),
            self.dirs().contains(p),
            forall|q: usize, j: int|
                #![trigger m2.entry(q as int, j)]
                self.dirs().contains(q) && 0 <= j < 512 && !(q == p && j == i) ==> m2.entry(q as int, j)
                    == m1.entry(q as int, j),
        ensures
            forall|a: int|
                #![trigger child_of(m2, self.root(), a)]
                0 <= a < 512 && !through(seq![a], self.path(p), i) ==> child_of(m2, self.root(), a)
                    == child_of(m1, self.root(), a),
            forall|a: int, b: int|
                #![trigger leaf_table(m2, self.root(), a, b)]
                0 <= a < 512 && 0 <= b < 512 && !through(seq![a, b], self.path(p), i) ==> leaf_table(
                    m2,
                    self.root(),
                    a,
                    b,
                ) == leaf_table(m1, self.root(), a, b),
            forall|a: int, b: int, c: int|
                #![trigger walk_at(m2, self.root(), a, b, c)]
                0 <= a < 512 && 0 <= b < 512 && 0 <= c < 512 && !through(seq![a, b, c], self.path(p), i)
                    ==> walk_at(m2, self.root(), a, b, c) == walk_at(m1, self.root(), a, b, c),
    {
        let r = self.root();
        assert(self.dirs().contains(r));
        assert forall|a: int|
            0 <= a < 512 && !through(seq![a], self.path(p), i) implies child_of(m2, r, a) == child_of(m1, r, a) by {
            assert(m2.entry(r as int, a) == m1.entry(r as int, a));
        }
        assert forall|a: int, b: int|
            0 <= a < 512 && 0 <= b < 512 && !through(seq![a, b], self.path(p), i) implies leaf_table(
                m2,
                r,
                a,
                b,
            ) == leaf_table(m1, r, a, b) by {
            assert(!through(seq![a], self.path(p), i));
            assert(child_of(m2, r, a) == child_of(m1, r, a));
            if child_of(m1, r, a) is Some {
                let p1 = child_of(m1, r, a)->0;
                assert(node_at(m1, r, seq![a]) == Some(p1));
                self.lemma_reach(m1, seq![a]);
                assert(m2.entry(p1 as int, b) == m1.entry(p1 as int, b));
            }
        }
        assert forall|a: int, b: int, c: int|
            0 <= a < 512 && 0 <= b < 512 && 0 <= c < 512 && !through(seq![a, b, c], self.path(p), i)
                implies walk_at(m2, r, a, b, c) == walk_at(m1, r, a, b, c) by {
            assert(!through(seq![a, b], self.path(p), i));
            assert(leaf_table(m2, r, a, b) == leaf_table(m1, r, a, b));
            if leaf_table(m1, r, a, b) is Some {
                let p2 = leaf_table(m1, r, a, b)->0;
                assert(node_at(m1, r, seq![a, b]) == Some(p2));
                self.lemma_reach(m1, seq![a, b]);
                assert(m2.entry(p2 as int, c) == m1.entry(p2 as int, c));
            }
        }
    }

    /// A table of one cleared root page taken from `fa`; it maps nothing.
    pub fn new(fa: &mut StackFrameAllocator, mem: &mut PhysMemory) -> (t: Self)
        requires
            frames_within(*old(fa), *old(mem)),
            old(mem).wf(),
            free_frames(*old(fa)) >= 1,
        ensures
            t.wf(*final(mem)),
            t.owned_by(*final(fa)),
            frames_within(*final(fa), *final(mem)),
            t.dirs() == set![t.root()],
            !old(fa).in_use().contains(t.root()),
            final(fa).in_use() == old(fa).in_use().insert(t.root()),
            final(mem).first() == old(mem).first(),
            final(mem).count() == old(mem).count(),
            forall|q: int, j: int|
                old(mem).has(q) && 0 <= j < 512 ==> #[trigger] final(mem).entry(q, j) == if q
                    == t.root() {
                    0
                } else {
                    old(mem).entry(q, j)
                },
            forall|a: int, b: int, c: int|
                0 <= a < 512 ==> #[trigger] mapped_at(*final(mem), t.root(), a, b, c) is None,
    {
        let mut frame = frame_alloc(fa, mem).unwrap();
        let ppn = frame.ppn;
        frame.fa = ppn;
        let mut frames: BTreeMap<usize, FrameTracker> = BTreeMap::new();
        frames.insert(frame.ppn.0, frame);
        let t = PageTable { root_ppn: ppn, dir_frames: frames, paths: Ghost(Map::<usize, Seq<int>>::empty().insert(ppn.0, Seq::<int>::empty())) };
        proof {
            let m = *mem;
            lemma_zero_invalid();
            lemma_count_zero(m, ppn.0, 512);
            assert(t.dirs() =~= set![ppn.0]);
            assert forall|i: int| 0 <= i < 512 implies child_of(m, ppn.0, i) is None by {
                assert(m.entry(ppn.0 as int, i) == 0);
            }
            assert forall|a: int, b: int, c: int|
                0 <= a < 512 implies #[trigger] mapped_at(m, t.root(), a, b, c) is None by {
                assert(m.entry(ppn.0 as int, a) == 0);
            }
        }
        t
    }

    /// Where the last-level entry for `vpn` lies (page and index), if the
    /// walk gets there, and the last page the walk read.
    fn find_pte(&self, mem: &PhysMemory, vpn: VirtPageNum) -> (r: (Option<(PhysPageNum, usize)>, PhysPageNum))
        requires
            walkable(*mem, self.root()),
        ensures
            ({
                let ix = vpn_indexes(vpn.0 as int);
                &&& r.0 == match leaf_table(*mem, self.root(), ix[0], ix[1]) {
                    Some(p2) => Some((PhysPageNum(p2), ix[2] as usize)),
                    None => None,
                }
                &&& r.1.0 == match child_of(*mem, self.root(), ix[0]) {
                    None => self.root(),
                    Some(p1) => match child_of(*mem, p1, ix[1]) {
                        None => p1,
                        Some(p2) => p2,
                    },
                }
            }),
    {
        let idxs = vpn.indexes();
        let root = self.root_ppn;
        let e0 = PageTableEntry { bits: mem.read(root, idxs[0]) };
        if !e0.is_valid() {
            return (None, root);
        }
        let p1 = e0.ppn();
        let e1 = PageTableEntry { bits: mem.read(p1, idxs[1]) };
        if !e1.is_valid() {
            return (None, p1);
        }
        let p2 = e1.ppn();
        (Some((p2, idxs[2])), p2)
    }

    /// The frames of the table's pages, each once.
    fn dir_pages(&self) -> (r: Vec<usize>)
        ensures
            r@.to_set() == self.dir_frames@.dom(),
            r@.no_duplicates(),
    {
        let ghost ks = spec_keys_iter(&self.dir_frames).remaining().unref();
        let mut r: Vec<usize> = Vec::new();
        for k in it: self.dir_frames.keys()
            invariant
                it.seq().unref() == ks,
                r@ == ks.take(it.index()),
        {
            r.push(*k);
            proof {
                assert(r@ =~= ks.take(it.index() + 1));
            }
        }
        proof {
            assert(r@ =~= ks);
            assert forall|i: int, j: int| 0 <= i < j < ks.len() implies ks[i] != ks[j] by {
                let s = spec_keys_iter(&self.dir_frames).remaining();
                assert(s[i] != s[j]);
            }
        }
        r
    }

    /// Hands the table's pages back to `fa`, which handed them out.
    pub fn release(self, mem: &PhysMemory, fa: &mut StackFrameAllocator)
        requires
            self.wf(*mem),
            self.owned_by(*old(fa)),
            old(fa).wf(),
        ensures
            final(fa).wf(),
            final(fa).in_use() == old(fa).in_use().difference(self.dirs()),
            final(fa).next_fresh() == old(fa).next_fresh(),
            final(fa).limit() == old(fa).limit(),
            final(fa).range_start() == old(fa).range_start(),
            final(fa).returned().subrange(0, old(fa).returned().len() as int) == old(fa).returned(),
            forall|i: int|
                old(fa).returned().len() <= i < final(fa).returned().len() ==> self.dirs().contains(
                    #[trigger] final(fa).returned()[i],
                ),
            frames_within(*old(fa), *mem) ==> frames_within(*final(fa), *mem),
    {
        let pages = self.dir_pages();
        proof {
            assert(pages@.to_set() =~= self.dirs());
        }
        let ghost r0 = old(fa).returned();
        let mut i: usize = 0;
        while i < pages.len()
            invariant
                self.wf(*mem),
                self.owned_by(*old(fa)),
                i <= pages@.len(),
                pages@.no_duplicates(),
                pages@.to_set() == self.dirs(),
                fa.wf(),
                fa.next_fresh() == old(fa).next_fresh(),
                fa.limit() == old(fa).limit(),
                fa.range_start() == old(fa).range_start(),
                fa.in_use() == old(fa).in_use().difference(pages@.take(i as int).to_set()),
                fa.returned() == r0 + pages@.take(i as int),
            decreases pages@.len() - i,
        {
            let p = pages[i];
            proof {
                assert(pages@.to_set().contains(p));
                assert(old(fa).in_use().contains(p));
                assert(!pages@.take(i as int).to_set().contains(p)) by {
                    if pages@.take(i as int).to_set().contains(p) {
                        let k = choose|k: int| 0 <= k < i && pages@.take(i as int)[k] == p;
                        assert(pages@[k] == pages@[i as int]);
                    }
                }
                assert(fa.in_use().contains(p));
            }
            fa.dealloc(PhysPageNum(p));
            proof {
                assert(pages@.take(i + 1) =~= pages@.take(i as int).push(p));
                assert(fa.in_use() =~= old(fa).in_use().difference(pages@.take(i + 1).to_set()));
                assert(fa.returned() =~= r0 + pages@.take(i + 1));
            }
            i = i + 1;
        }
        proof {
            assert(pages@.take(pages@.len() as int) =~= pages@);
            assert(fa.in_use() =~= old(fa).in_use().difference(self.dirs()));
            assert(fa.returned().subrange(0, r0.len() as int) =~= r0);
            assert forall|k: int| r0.len() <= k < fa.returned().len() implies self.dirs().contains(
                #[trigger] fa.returned()[k],
            ) by {
                assert(fa.returned()[k] == pages@[k - r0.len()]);
                assert(pages@.to_set().contains(pages@[k - r0.len()]));
            }
            if frames_within(*old(fa), *mem) {
                assert forall|k: int| 0 <= k < fa.returned().len() implies mem.has(#[trigger] fa.returned()[k] as int) by {
                    if k >= r0.len() {
                        assert(self.dirs().contains(fa.returned()[k]));
                    } else {
                        assert(fa.returned()[k] == r0[k]);
                    }
                }
            }
        }
    }

    /// How many directory pages a mapping of `vpn` has to allocate.
    pub fn frames_to_map(&self, mem: &PhysMemory, vpn: VirtPageNum) -> (r: usize)
        requires
            walkable(*mem, self.root()),
        ensures
            r == frames_needed(*mem, self.root(), vpn.0 as int),
    {
        let idxs = vpn.indexes();
        let e0 = PageTableEntry { bits: mem.read(self.root_ppn, idxs[0]) };
        if !e0.is_valid() {
            return 2;
        }
        let p1 = e0.ppn();
        proof {
            assert(child_of(*mem, self.root(), idxs[0] as int) == Some(p1.0));
        }
        let e1 = PageTableEntry { bits: mem.read(p1, idxs[1]) };
        if !e1.is_valid() {
            1
        } else {
            0
        }
    }

    /// The last-level entry for `vpn`, valid or not, if the walk gets there.
    pub fn translate(&self, mem: &PhysMemory, vpn: VirtPageNum) -> (r: Option<PageTableEntry>)
        requires
            walkable(*mem, self.root()),
        ensures
            r == match walk(*mem, self.root(), vpn.0 as int) {
                Some(bits) => Some(PageTableEntry { bits }),
                None => None,
            },
    {
        match self.find_pte(mem, vpn).0 {
            Some((p2, i)) => Some(PageTableEntry { bits: mem.read(p2, i) }),
            None => None,
        }
    }

    /// The physical address `va` leads to: the page of its last-level
    /// entry plus the offset inside the page.
    pub fn translate_va(&self, mem: &PhysMemory, va: VirtAddr) -> (r: Option<PhysAddr>)
        requires
            walkable(*mem, self.root()),
            usize::MAX == u64::MAX,
        ensures
            r == match walk(*mem, self.root(), (va.0 / PAGE_SIZE) as int) {
                Some(bits) => Some(PhysAddr((pte_ppn(bits) * PAGE_SIZE + va.0 % PAGE_SIZE) as usize)),
                None => None,
            },
    {
        match self.translate(mem, va.floor()) {
            Some(pte) => {
                let base = pte.ppn().0;
                let offset = va.page_offset();
                proof {
                    lemma_ppn_bound(pte.bits);
                }
                Some(PhysAddr(base * PAGE_SIZE + offset))
            },
            None => None,
        }
    }

    /// The value for the `satp` register: Sv39 mode and the root page.
    pub fn token(&self) -> (r: usize)
        requires
            usize::MAX == u64::MAX,
        ensures
            r == (8u64 << 60u64) | (self.root() as u64),
    {
        ((8u64 << 60u64) | (self.root_ppn.0 as u64)) as usize
    }

    /// The table whose root page a `satp` value names, for walking only: it
    /// owns no pages.
    pub fn from_token(satp: usize) -> (t: Self)
        ensures
            t.root() == (satp as u64 & PPN_MASK) as usize,
            t.dirs() == Set::<usize>::empty(),
    {
        let root = (satp as u64 & PPN_MASK) as usize;
        PageTable { root_ppn: PhysPageNum(root), dir_frames: BTreeMap::new(), paths: Ghost(Map::empty()) }
    }

    /// No owned page lies under an entry that is not valid.
    proof fn lemma_not_through(&self, mem: PhysMemory, d: usize, p: usize, i: int)
        requires
            self.wf(mem),
            self.dirs().contains(d),
            self.dirs().contains(p),
            0 <= i < 512,
            child_of(mem, p, i) is None,
        ensures
            !through(self.path(d), self.path(p), i),
    {
        let r = self.root();
        assert(self.dirs().contains(r));
        if self.path(p).len() == 0 {
            assert(node_at(mem, r, self.path(p)) == Some(p));
        } else if self.path(p).len() == 1 {
            assert(node_at(mem, r, self.path(p)) == Some(p));
        }
    }

    /// The directory page under entry `i` of owned page `p`; when that entry
    /// is not valid, a cleared frame from `fa` is linked there, owned and
    /// counted in `p`.
    fn descend(
        &mut self,
        mem: &mut PhysMemory,
        fa: &mut StackFrameAllocator,
        p: PhysPageNum,
        i: usize,
    ) -> (c: PhysPageNum)
        requires
            old(self).wf(*old(mem)),
            old(self).owned_by(*old(fa)),
            frames_within(*old(fa), *old(mem)),
            old(self).dirs().contains(p.0),
            old(self).path(p.0).len() < 2,
            i < 512,
            child_of(*old(mem), p.0, i as int) is None ==> free_frames(*old(fa)) >= 1,
        ensures
            final(self).wf(*final(mem)),
            final(self).owned_by(*final(fa)),
            frames_within(*final(fa), *final(mem)),
            final(self).root() == old(self).root(),
            final(mem).first() == old(mem).first(),
            final(mem).count() == old(mem).count(),
            forall|d: usize|
                #[trigger] old(self).dirs().contains(d) ==> final(self).dirs().contains(d) && final(self).path(d) == old(self).path(d),
            final(self).dirs().contains(c.0),
            final(self).path(c.0) == old(self).path(p.0).push(i as int),
            child_of(*final(mem), p.0, i as int) == Some(c.0),
            forall|a: int, b: int, x: int|
                0 <= a < 512 && 0 <= b < 512 && 0 <= x < 512 ==> #[trigger] mapped_at(
                    *final(mem),
                    final(self).root(),
                    a,
                    b,
                    x,
                ) == mapped_at(*old(mem), old(self).root(), a, b, x),
            child_of(*old(mem), p.0, i as int) is Some ==> *final(mem) == *old(mem) && free_frames(*final(fa)) == free_frames(*old(fa)),
            child_of(*old(mem), p.0, i as int) is None ==> free_frames(*final(fa)) == free_frames(*old(fa)) - 1 && forall|j: int| 0 <= j < 512 ==> #[trigger] final(mem).entry(c.0 as int, j) == 0,
            others_kept(*old(self), *final(self), *old(fa), *final(fa), *old(mem), *final(mem)),
    {
        let e = PageTableEntry { bits: mem.read(p, i) };
        if e.is_valid() {
            proof {
                assert(self.dirs().contains(p.0) && child_of(*mem, p.0, i as int) is Some);
            }
            return e.ppn();
        }
        let ghost m0 = *mem;
        let ghost t0 = *self;
        let frame = frame_alloc(fa, mem).unwrap();
        let q = frame.ppn;
        proof {
            assert(!t0.dirs().contains(q.0));
            mem.lemma_has_fits(q.0 as int);
            assert(1u8 & 1u8 != 0u8) by (bit_vector);
            lemma_new_valid(q.0, PTE_V);
        }
        mem.write(p, i, PageTableEntry::new(q, PTEFlags { bits: PTE_V }).bits);
        self.dir_frames.insert(q.0, frame);
        let mut parent = self.dir_frames.remove(&p.0).unwrap();
        proof {
            lemma_count_bound(m0, p.0, 512);
        }
        parent.used = parent.used + 1;
        self.dir_frames.insert(p.0, parent);
        self.paths = Ghost(self.paths@.insert(q.0, self.paths@[p.0].push(i as int)));
        proof {
            let m2 = *mem;
            let r = t0.root();
            let pp = p.0;
            let qq = q.0;
            let ii = i as int;
            assert forall|d: usize, j: int|
                #![trigger m2.entry(d as int, j)]
                t0.dirs().contains(d) && 0 <= j < 512 && !(d == pp && j == ii) implies m2.entry(d as int, j)
                    == m0.entry(d as int, j) by {
                assert(d != qq);
            }
            assert(child_of(m2, pp, ii) == Some(qq));
            t0.lemma_same_walks(m0, m2, pp, ii);
            assert(t0.dirs().contains(r));
            assert(node_at(m0, r, t0.path(pp)) == Some(pp));
            // the new page holds nothing
            assert forall|j: int| 0 <= j < 512 implies #[trigger] m2.entry(qq as int, j) == 0 by {
                assert(qq != pp);
            }
            lemma_zero_invalid();
            assert forall|j: int| 0 <= j < 512 implies #[trigger] child_of(m2, qq, j) is None by {
                assert(m2.entry(qq as int, j) == 0);
            }
            // mappings stay
            assert forall|a: int, b: int, x: int|
                0 <= a < 512 && 0 <= b < 512 && 0 <= x < 512 implies #[trigger] mapped_at(m2, r, a, b, x)
                    == mapped_at(m0, r, a, b, x) by {
                if through(seq![a, b, x], t0.path(pp), ii) {
                    if t0.path(pp).len() == 0 {
                        assert(child_of(m2, qq, b) is None);
                    } else {
                        assert(t0.path(pp) =~= seq![a]);
                        assert(child_of(m0, r, a) == Some(pp));
                        assert(!through(seq![a], t0.path(pp), ii));
                        assert(child_of(m2, r, a) == Some(pp));
                        assert(m2.entry(qq as int, x) == 0);
                    }
                } else {
                    assert(walk_at(m2, r, a, b, x) == walk_at(m0, r, a, b, x));
                }
            }
            // the table is in shape
            assert forall|d: usize| #[trigger] t0.dirs().contains(d) implies node_at(m2, r, t0.path(d)) == Some(d) by {
                t0.lemma_not_through(m0, d, pp, ii);
                assert(node_at(m0, r, t0.path(d)) == Some(d));
                if t0.path(d).len() == 1 {
                    assert(t0.path(d) =~= seq![t0.path(d)[0]]);
                    assert(!through(seq![t0.path(d)[0]], t0.path(pp), ii));
                } else if t0.path(d).len() == 2 {
                    assert(t0.path(d) =~= seq![t0.path(d)[0], t0.path(d)[1]]);
                    assert(!through(seq![t0.path(d)[0], t0.path(d)[1]], t0.path(pp), ii));
                }
            }
            assert(node_at(m2, r, self.path(qq)) == Some(qq)) by {
                assert(node_at(m2, r, t0.path(pp)) == Some(pp));
                if t0.path(pp).len() == 1 {
                    assert(self.path(qq) =~= seq![t0.path(pp)[0], ii]);
                }
            }
            assert forall|d: usize| #[trigger] t0.dirs().contains(d) && d != pp implies valid_count(m2, d, 512) == valid_count(m0, d, 512) by {
                lemma_count_change(m0, m2, d, -1, 512);
            }
            lemma_count_change(m0, m2, pp, ii, 512);
            lemma_count_zero(m2, qq, 512);
            assert forall|d: usize| #[trigger] self.dirs().contains(d) implies {
                &&& m2.has(d as int)
                &&& self.path(d).len() <= 2
                &&& forall|k: int| 0 <= k < self.path(d).len() ==> 0 <= #[trigger] self.path(d)[k] < 512
                &&& node_at(m2, self.root(), self.path(d)) == Some(d)
                &&& self.dir_frames@.contains_key(d)
                &&& self.dir_frames@[d].ppn.0 == d
                &&& self.dir_frames@[d].used == valid_count(m2, d, 512)
            } by {
                if d != qq {
                    assert(t0.dirs().contains(d));
                    assert(self.path(d) == t0.path(d));
                }
            }
            assert forall|d: usize, j: int|
                #![trigger self.dirs().contains(d), child_of(m2, d, j)]
                self.dirs().contains(d) && self.path(d).len() < 2 && 0 <= j < 512 && child_of(m2, d, j)
                    is Some implies self.dirs().contains(child_of(m2, d, j)->0) && self.path(
                    child_of(m2, d, j)->0,
                ) == self.path(d).push(j) by {
                if d != qq && !(d == pp && j == ii) {
                    assert(t0.dirs().contains(d));
                    assert(m2.entry(d as int, j) == m0.entry(d as int, j));
                    assert(t0.dirs().contains(d) && child_of(m0, d, j) is Some);
                    let c = child_of(m0, d, j)->0;
                    assert(t0.dirs().contains(c));
                }
            }
            assert forall|k: usize| #[trigger] self.dir_frames@.contains_key(k) implies self.dirs().contains(k) by {
                if k != qq && k != pp {
                    assert(t0.dir_frames@.contains_key(k));
                }
            }
            assert forall|d: usize| #[trigger] self.dirs().contains(d) implies fa.in_use().contains(d) by {
                if d != qq {
                    assert(t0.dirs().contains(d));
                }
            }
        }
        q
    }

    /// The last-level page and index of the entry for `vpn`, creating the
    /// missing directory pages on the way.
    fn create_pte(
        &mut self,
        mem: &mut PhysMemory,
        fa: &mut StackFrameAllocator,
        vpn: VirtPageNum,
    ) -> (r: (PhysPageNum, usize))
        requires
            old(self).wf(*old(mem)),
            old(self).owned_by(*old(fa)),
            frames_within(*old(fa), *old(mem)),
            frames_needed(*old(mem), old(self).root(), vpn.0 as int) <= free_frames(*old(fa)),
        ensures
            final(self).wf(*final(mem)),
            final(self).owned_by(*final(fa)),
            frames_within(*final(fa), *final(mem)),
            final(self).root() == old(self).root(),
            final(mem).first() == old(mem).first(),
            final(mem).count() == old(mem).count(),
            forall|d: usize|
                #[trigger] old(self).dirs().contains(d) ==> final(self).dirs().contains(d) && final(self).path(d) == old(self).path(d),
            final(self).dirs().contains(r.0.0),
            final(self).path(r.0.0) == seq![vpn_indexes(vpn.0 as int)[0], vpn_indexes(vpn.0 as int)[1]],
            leaf_table(
                *final(mem),
                final(self).root(),
                vpn_indexes(vpn.0 as int)[0],
                vpn_indexes(vpn.0 as int)[1],
            ) == Some(r.0.0),
            r.1 == vpn_indexes(vpn.0 as int)[2],
            others_kept(*old(self), *final(self), *old(fa), *final(fa), *old(mem), *final(mem)),
            forall|a: int, b: int, x: int|
                0 <= a < 512 && 0 <= b < 512 && 0 <= x < 512 ==> #[trigger] mapped_at(
                    *final(mem),
                    final(self).root(),
                    a,
                    b,
                    x,
                ) == mapped_at(*old(mem), old(self).root(), a, b, x),
            free_frames(*final(fa)) == free_frames(*old(fa)) - frames_needed(
                *old(mem),
                old(self).root(),
                vpn.0 as int,
            ),
    {
        let idxs = vpn.indexes();
        let ghost m0 = *mem;
        let root = self.root_ppn;
        proof {
            assert(self.dirs().contains(root.0));
        }
        let p1 = self.descend(mem, fa, root, idxs[0]);
        let ghost m1 = *mem;
        proof {
            lemma_zero_invalid();
            if child_of(m0, root.0, idxs[0] as int) is None {
                assert(m1.entry(p1.0 as int, idxs[1] as int) == 0);
            }
        }
        let p2 = self.descend(mem, fa, p1, idxs[1]);
        proof {
            let m2 = *mem;
            assert(self.path(p1.0) =~= seq![idxs[0] as int]);
            assert(node_at(m2, self.root(), self.path(p1.0)) == Some(p1.0));
            assert(self.path(p2.0) =~= seq![idxs[0] as int, idxs[1] as int]);
        }
        (p2, idxs[2])
    }

    /// Maps `vpn` to the frame `ppn` with `flags` and the valid bit,
    /// creating the missing directory pages; `vpn` must not be mapped yet.
    pub fn map(
        &mut self,
        mem: &mut PhysMemory,
        fa: &mut StackFrameAllocator,
        vpn: VirtPageNum,
        ppn: PhysPageNum,
        flags: PTEFlags,
    )
        requires
            old(self).wf(*old(mem)),
            old(self).owned_by(*old(fa)),
            frames_within(*old(fa), *old(mem)),
            mapping(*old(mem), old(self).root(), vpn.0 as int) is None,
            frames_needed(*old(mem), old(self).root(), vpn.0 as int) <= free_frames(*old(fa)),
        ensures
            final(self).wf(*final(mem)),
            final(self).owned_by(*final(fa)),
            frames_within(*final(fa), *final(mem)),
            final(self).root() == old(self).root(),
            final(mem).first() == old(mem).first(),
            final(mem).count() == old(mem).count(),
            free_frames(*final(fa)) == free_frames(*old(fa)) - frames_needed(
                *old(mem),
                old(self).root(),
                vpn.0 as int,
            ),
            others_kept(*old(self), *final(self), *old(fa), *final(fa), *old(mem), *final(mem)),
            leaf_table(
                *final(mem),
                final(self).root(),
                vpn_indexes(vpn.0 as int)[0],
                vpn_indexes(vpn.0 as int)[1],
            ) is Some,
            mapping(*final(mem), final(self).root(), vpn.0 as int) == Some(
                ((ppn.0 as u64) << 10u64) | ((flags.bits | PTE_V) as u64),
            ),
            forall|a: int, b: int, x: int|
                0 <= a < 512 && 0 <= b < 512 && 0 <= x < 512 ==> #[trigger] mapped_at(
                    *final(mem),
                    final(self).root(),
                    a,
                    b,
                    x,
                ) == if seq![a, b, x] == vpn_indexes(vpn.0 as int) {
                    Some(((ppn.0 as u64) << 10u64) | ((flags.bits | PTE_V) as u64))
                } else {
                    mapped_at(*old(mem), old(self).root(), a, b, x)
                },
    {
        let ghost ix = vpn_indexes(vpn.0 as int);
        let (last, idx) = self.create_pte(mem, fa, vpn);
        let ghost m1 = *mem;
        let ghost t1 = *self;
        let e = PageTableEntry::new(ppn, flags.union(PTEFlags { bits: PTE_V }));
        mem.write(last, idx, e.bits);
        let mut frame = self.dir_frames.remove(&last.0).unwrap();
        proof {
            lemma_count_bound(m1, last.0, 512);
        }
        frame.used = frame.used + 1;
        self.dir_frames.insert(last.0, frame);
        proof {
            let m2 = *mem;
            let r = t1.root();
            let pp = last.0;
            let ii = idx as int;
            lemma_low_bits(ppn.0 as u64, (flags.bits | PTE_V));
            let fb = flags.bits;
            assert((fb | 1u8) & 1u8 != 0u8) by (bit_vector);
            assert(pte_valid(e.bits));
            assert forall|d: usize, j: int|
                #![trigger m2.entry(d as int, j)]
                t1.dirs().contains(d) && 0 <= j < 512 && !(d == pp && j == ii) implies m2.entry(d as int, j)
                    == m1.entry(d as int, j) by {
            }
            t1.lemma_same_walks(m1, m2, pp, ii);
            assert(t1.dirs().contains(r));
            // the entry was not valid
            assert(walk_at(m1, r, ix[0], ix[1], ix[2]) == Some(m1.entry(pp as int, ii)));
            assert(mapped_at(m1, r, ix[0], ix[1], ix[2]) is None);
            assert(!pte_valid(m1.entry(pp as int, ii)));
            assert(!through(seq![ix[0], ix[1]], t1.path(pp), ii));
            assert(leaf_table(m2, r, ix[0], ix[1]) == Some(pp));
            assert forall|a: int, b: int, x: int|
                0 <= a < 512 && 0 <= b < 512 && 0 <= x < 512 implies #[trigger] mapped_at(m2, r, a, b, x)
                    == if seq![a, b, x] == ix {
                    Some(e.bits)
                } else {
                    mapped_at(m1, r, a, b, x)
                } by {
                if seq![a, b, x] == ix {
                    assert(a == ix[0] && b == ix[1] && x == ix[2]);
                } else {
                    if through(seq![a, b, x], t1.path(pp), ii) {
                        assert(seq![a, b, x] =~= ix);
                    }
                }
            }
            assert(mapped_at(m2, r, ix[0], ix[1], ix[2]) == Some(e.bits));
            // the table is in shape
            assert forall|d: usize| #[trigger] t1.dirs().contains(d) && d != pp implies valid_count(m2, d, 512) == valid_count(m1, d, 512) by {
                lemma_count_change(m1, m2, d, -1, 512);
            }
            lemma_count_change(m1, m2, pp, ii, 512);
            assert forall|d: usize| #[trigger] t1.dirs().contains(d) implies node_at(m2, r, t1.path(d)) == Some(d) by {
                assert(node_at(m1, r, t1.path(d)) == Some(d));
                if t1.path(d).len() == 1 {
                    assert(t1.path(d) =~= seq![t1.path(d)[0]]);
                    assert(!through(seq![t1.path(d)[0]], t1.path(pp), ii));
                } else if t1.path(d).len() == 2 {
                    assert(t1.path(d) =~= seq![t1.path(d)[0], t1.path(d)[1]]);
                    assert(!through(seq![t1.path(d)[0], t1.path(d)[1]], t1.path(pp), ii));
                }
            }
            assert forall|d: usize, j: int|
                #![trigger self.dirs().contains(d), child_of(m2, d, j)]
                self.dirs().contains(d) && self.path(d).len() < 2 && 0 <= j < 512 && child_of(m2, d, j)
                    is Some implies self.dirs().contains(child_of(m2, d, j)->0) && self.path(
                    child_of(m2, d, j)->0,
                ) == self.path(d).push(j) by {
                assert(d != pp);
                assert(m2.entry(d as int, j) == m1.entry(d as int, j));
                assert(t1.dirs().contains(d) && child_of(m1, d, j) is Some);
            }
            assert forall|k: usize| #[trigger] self.dir_frames@.contains_key(k) implies self.dirs().contains(k) by {
                if k != pp {
                    assert(t1.dir_frames@.contains_key(k));
                }
            }
        }
    }

    /// The table stays in shape, with the same walks, when no entry of its
    /// pages changes.
    pub proof fn lemma_dirs_untouched(&self, m1: PhysMemory, m2: PhysMemory)
        requires
            self.wf(m1),
            m2.wf(),
            m2.first() == m1.first(),
            m2.count() == m1.count(),
            forall|q: usize, j: int|
                #![trigger m2.entry(q as int, j)]
                self.dirs().contains(q) && m1.has(q as int) && 0 <= j < 512 ==> m2.entry(q as int, j) == m1.entry(
                    q as int,
                    j,
                ),
        ensures
            self.wf(m2),
            forall|v: int| #[trigger] frames_needed(m2, self.root(), v) == frames_needed(m1, self.root(), v),
            forall|a: int, b: int, x: int|
                0 <= a < 512 && 0 <= b < 512 && 0 <= x < 512 ==> #[trigger] mapped_at(m2, self.root(), a, b, x)
                    == mapped_at(m1, self.root(), a, b, x),
    {
        let r = self.root();
        assert(self.dirs().contains(r));
        self.lemma_same_walks(m1, m2, r, -1);
        assert forall|q: usize, j: int|
            #![trigger m2.entry(q as int, j)]
            self.dirs().contains(q) && 0 <= j < 512 implies m2.entry(q as int, j) == m1.entry(q as int, j) by {
            assert(m1.has(q as int));
        }
        assert forall|p: usize, i: int|
            self.dirs().contains(p) && 0 <= i < 512 implies #[trigger] child_of(m2, p, i) == child_of(m1, p, i) by {
            assert(m2.entry(p as int, i) == m1.entry(p as int, i));
        }
        assert forall|p: usize| #[trigger] self.dirs().contains(p) implies {
            &&& node_at(m2, r, self.path(p)) == Some(p)
            &&& self.dir_frames@[p].used == valid_count(m2, p, 512)
        } by {
            let s = self.path(p);
            if s.len() == 1 {
                assert(child_of(m2, r, s[0]) == child_of(m1, r, s[0]));
            } else if s.len() == 2 {
                assert(!through(seq![s[0], s[1]], self.path(r), -1));
                assert(leaf_table(m2, r, s[0], s[1]) == leaf_table(m1, r, s[0], s[1]));
            }
            lemma_count_change(m1, m2, p, -1, 512);
        }
        assert forall|v: int| #[trigger] frames_needed(m2, r, v) == frames_needed(m1, r, v) by {
            let ix = vpn_indexes(v);
            assert(0 <= ix[0] < 512 && 0 <= ix[1] < 512);
            assert(child_of(m2, r, ix[0]) == child_of(m1, r, ix[0]));
            if child_of(m1, r, ix[0]) is Some {
                let p1 = child_of(m1, r, ix[0])->0;
                assert(self.dirs().contains(p1));
                assert(child_of(m2, p1, ix[1]) == child_of(m1, p1, ix[1]));
            }
        }
        assert forall|a: int, b: int, x: int|
            0 <= a < 512 && 0 <= b < 512 && 0 <= x < 512 implies #[trigger] mapped_at(m2, r, a, b, x)
                == mapped_at(m1, r, a, b, x) by {
            assert(!through(seq![a, b, x], self.path(r), -1));
            assert(walk_at(m2, r, a, b, x) == walk_at(m1, r, a, b, x));
        }
    }

    /// Maps `vpn` with `flags` to a fresh frame, cleared, which is returned;
    /// like `map`, missing directory pages are allocated on the way.
    pub fn map_framed(
        &mut self,
        mem: &mut PhysMemory,
        fa: &mut StackFrameAllocator,
        vpn: VirtPageNum,
        flags: PTEFlags,
    ) -> (f: FrameTracker)
        requires
            old(self).wf(*old(mem)),
            old(self).owned_by(*old(fa)),
            frames_within(*old(fa), *old(mem)),
            mapping(*old(mem), old(self).root(), vpn.0 as int) is None,
            frames_needed(*old(mem), old(self).root(), vpn.0 as int) + 1 <= free_frames(*old(fa)),
        ensures
            final(self).wf(*final(mem)),
            final(self).owned_by(*final(fa)),
            frames_within(*final(fa), *final(mem)),
            final(self).root() == old(self).root(),
            final(mem).first() == old(mem).first(),
            final(mem).count() == old(mem).count(),
            !old(fa).in_use().contains(f.ppn.0),
            final(fa).in_use().contains(f.ppn.0),
            !final(self).dirs().contains(f.ppn.0),
            old(mem).has(f.ppn.0 as int),
            free_frames(*final(fa)) == free_frames(*old(fa)) - 1 - frames_needed(
                *old(mem),
                old(self).root(),
                vpn.0 as int,
            ),
            others_kept(*old(self), *final(self), *old(fa), *final(fa), *old(mem), *final(mem)),
            leaf_table(
                *final(mem),
                final(self).root(),
                vpn_indexes(vpn.0 as int)[0],
                vpn_indexes(vpn.0 as int)[1],
            ) is Some,
            mapping(*final(mem), final(self).root(), vpn.0 as int) == Some(
                ((f.ppn.0 as u64) << 10u64) | ((flags.bits | PTE_V) as u64),
            ),
            forall|a: int, b: int, x: int|
                0 <= a < 512 && 0 <= b < 512 && 0 <= x < 512 ==> #[trigger] mapped_at(
                    *final(mem),
                    final(self).root(),
                    a,
                    b,
                    x,
                ) == if seq![a, b, x] == vpn_indexes(vpn.0 as int) {
                    Some(((f.ppn.0 as u64) << 10u64) | ((flags.bits | PTE_V) as u64))
                } else {
                    mapped_at(*old(mem), old(self).root(), a, b, x)
                },
    {
        let ghost m0 = *mem;
        let ghost fa0 = *fa;
        let f = frame_alloc(fa, mem).unwrap();
        proof {
            assert forall|q: usize, j: int|
                #![trigger mem.entry(q as int, j)]
                self.dirs().contains(q) && 0 <= j < 512 implies mem.entry(q as int, j) == m0.entry(q as int, j) by {
                assert(fa0.in_use().contains(q));
                assert(m0.has(q as int));
            }
            self.lemma_dirs_untouched(m0, *mem);
            assert forall|p: usize| #[trigger] self.dirs().contains(p) implies fa.in_use().contains(p) by {
                assert(fa0.in_use().contains(p));
            }
            let ix = vpn_indexes(vpn.0 as int);
            assert(mapped_at(*mem, self.root(), ix[0], ix[1], ix[2]) == mapped_at(m0, self.root(), ix[0], ix[1], ix[2]));
        }
        let ghost m1 = *mem;
        let ghost fa1 = *fa;
        let ghost t1 = *self;
        self.map(mem, fa, vpn, f.ppn, flags);
        proof {
            assert(fa1.in_use().contains(f.ppn.0));
            assert(!t1.dirs().contains(f.ppn.0)) by {
                if t1.dirs().contains(f.ppn.0) {
                    assert(fa0.in_use().contains(f.ppn.0));
                }
            }
            assert forall|q: usize| #[trigger] fa0.in_use().contains(q) implies fa.in_use().contains(q) by {
                assert(fa1.in_use().contains(q));
            }
            assert forall|d: usize| #[trigger] self.dirs().contains(d) implies t1.dirs().contains(d)
                || !fa0.in_use().contains(d) by {
                if !t1.dirs().contains(d) {
                    assert(!fa1.in_use().contains(d));
                }
            }
            assert forall|q: usize, j: int|
                #![trigger mem.entry(q as int, j)]
                m0.has(q as int) && fa0.in_use().contains(q) && !t1.dirs().contains(q) && 0 <= j < 512 implies mem.entry(
                    q as int,
                    j,
                ) == m0.entry(q as int, j) by {
                assert(fa1.in_use().contains(q));
                assert(m1.entry(q as int, j) == m0.entry(q as int, j));
            }
        }
        f
    }

    /// Clears the entry that maps `vpn`. The page of that entry must keep
    /// another mapping: when its last one goes, the frame that would hand
    /// the emptied page back is not known, and the table stops.
    pub fn unmap(&mut self, mem: &mut PhysMemory, vpn: VirtPageNum)
        requires
            old(self).wf(*old(mem)),
            mapping(*old(mem), old(self).root(), vpn.0 as int) is Some,
            exists|j: int|
                0 <= j < 512 && j != vpn_indexes(vpn.0 as int)[2] && #[trigger] mapped_at(
                    *old(mem),
                    old(self).root(),
                    vpn_indexes(vpn.0 as int)[0],
                    vpn_indexes(vpn.0 as int)[1],
                    j,
                ) is Some,
        ensures
            final(self).wf(*final(mem)),
            final(self).root() == old(self).root(),
            final(self).dirs() == old(self).dirs(),
            final(mem).first() == old(mem).first(),
            final(mem).count() == old(mem).count(),
            mapping(*final(mem), final(self).root(), vpn.0 as int) is None,
            forall|q: usize, j: int|
                #![trigger final(mem).entry(q as int, j)]
                old(mem).has(q as int) && !old(self).dirs().contains(q) && 0 <= j < 512 ==> final(mem).entry(q as int, j)
                    == old(mem).entry(q as int, j),
            forall|a: int, b: int, x: int|
                0 <= a < 512 && 0 <= b < 512 && 0 <= x < 512 ==> #[trigger] mapped_at(
                    *final(mem),
                    final(self).root(),
                    a,
                    b,
                    x,
                ) == if seq![a, b, x] == vpn_indexes(vpn.0 as int) {
                    None
                } else {
                    mapped_at(*old(mem), old(self).root(), a, b, x)
                },
    {
        let ghost ix = vpn_indexes(vpn.0 as int);
        let ghost m1 = *mem;
        let ghost t1 = *self;
        proof {
            t1.lemma_walkable(m1);
        }
        let res = self.find_pte(mem, vpn);
        let (page, idx) = res.0.unwrap();
        let last = res.1;
        mem.write(page, idx, PageTableEntry::empty().bits);
        let mut frame = self.dir_frames.remove(&last.0).unwrap();
        proof {
            let r = t1.root();
            assert(t1.dirs().contains(r));
            assert(node_at(m1, r, seq![ix[0], ix[1]]) == Some(page.0));
            t1.lemma_reach(m1, seq![ix[0], ix[1]]);
            let j = choose|j: int|
                0 <= j < 512 && j != ix[2] && #[trigger] mapped_at(m1, r, ix[0], ix[1], j) is Some;
            lemma_count_two(m1, page.0, idx as int, j, 512);
        }
        frame.used = frame.used - 1;
        self.dir_frames.insert(last.0, frame);
        proof {
            let m2 = *mem;
            let r = t1.root();
            let pp = page.0;
            let ii = idx as int;
            lemma_zero_invalid();
            assert forall|d: usize, j: int|
                #![trigger m2.entry(d as int, j)]
                t1.dirs().contains(d) && 0 <= j < 512 && !(d == pp && j == ii) implies m2.entry(d as int, j)
                    == m1.entry(d as int, j) by {
            }
            t1.lemma_same_walks(m1, m2, pp, ii);
            assert(t1.path(pp) =~= seq![ix[0], ix[1]]);
            assert(!through(seq![ix[0], ix[1]], t1.path(pp), ii));
            assert(leaf_table(m2, r, ix[0], ix[1]) == Some(pp));
            assert forall|a: int, b: int, x: int|
                0 <= a < 512 && 0 <= b < 512 && 0 <= x < 512 implies #[trigger] mapped_at(m2, r, a, b, x)
                    == if seq![a, b, x] == ix {
                    None
                } else {
                    mapped_at(m1, r, a, b, x)
                } by {
                if seq![a, b, x] == ix {
                    assert(a == ix[0] && b == ix[1] && x == ix[2]);
                } else {
                    if through(seq![a, b, x], t1.path(pp), ii) {
                        assert(seq![a, b, x] =~= ix);
                    }
                }
            }
            assert(mapped_at(m2, r, ix[0], ix[1], ix[2]) is None);
            assert forall|d: usize| #[trigger] t1.dirs().contains(d) && d != pp implies valid_count(m2, d, 512) == valid_count(m1, d, 512) by {
                lemma_count_change(m1, m2, d, -1, 512);
            }
            lemma_count_change(m1, m2, pp, ii, 512);
            assert forall|d: usize| #[trigger] t1.dirs().contains(d) implies node_at(m2, r, t1.path(d)) == Some(d) by {
                assert(node_at(m1, r, t1.path(d)) == Some(d));
                if t1.path(d).len() == 1 {
                    assert(t1.path(d) =~= seq![t1.path(d)[0]]);
                    assert(!through(seq![t1.path(d)[0]], t1.path(pp), ii));
                } else if t1.path(d).len() == 2 {
                    assert(t1.path(d) =~= seq![t1.path(d)[0], t1.path(d)[1]]);
                    assert(!through(seq![t1.path(d)[0], t1.path(d)[1]], t1.path(pp), ii));
                }
            }
            assert forall|d: usize, j: int|
                #![trigger self.dirs().contains(d), child_of(m2, d, j)]
                self.dirs().contains(d) && self.path(d).len() < 2 && 0 <= j < 512 && child_of(m2, d, j)
                    is Some implies self.dirs().contains(child_of(m2, d, j)->0) && self.path(
                    child_of(m2, d, j)->0,
                ) == self.path(d).push(j) by {
                assert(d != pp);
                assert(m2.entry(d as int, j) == m1.entry(d as int, j));
                assert(t1.dirs().contains(d) && child_of(m1, d, j) is Some);
            }
            assert forall|k: usize| #[trigger] self.dir_frames@.contains_key(k) implies self.dirs().contains(k) by {
                if k != pp {
                    assert(t1.dir_frames@.contains_key(k));
                }
            }
        }
    }
}


/// Pages touched by the `len` bytes from virtual address `start`.
pub open spec fn chunk_count(start: int, len: int) -> int {
    if len <= 0 {
        0
    } else {
        (start + len - 1) / (PAGE_SIZE as int) - start / (PAGE_SIZE as int) + 1
    }
}

/// The piece of the `len` bytes at `start` that lies in their `k`-th page:
/// the frame the page is mapped to and the byte range inside the frame.
pub open spec fn chunk_at(mem: PhysMemory, root: usize, start: int, len: int, k: int) -> (
    PhysPageNum,
    usize,
    usize,
) {
    let page = start / (PAGE_SIZE as int) + k;
    let lo = if k == 0 {
        start % (PAGE_SIZE as int)
    } else {
        0
    };
    let e = if (page + 1) * (PAGE_SIZE as int) <= start + len {
        (page + 1) * (PAGE_SIZE as int)
    } else {
        start + len
    };
    let hi = if e % (PAGE_SIZE as int) == 0 {
        PAGE_SIZE as int
    } else {
        e % (PAGE_SIZE as int)
    };
    (PhysPageNum(pte_ppn(walk(mem, root, page)->0)), lo as usize, hi as usize)
}

/// Bytes held by the first `n` pieces of the `len` bytes at `start`.
pub open spec fn pieces_bytes(mem: PhysMemory, root: usize, start: int, len: int, n: int) -> int
    decreases n,
{
    if n <= 0 {
        0
    } else {
        pieces_bytes(mem, root, start, len, n - 1) + chunk_at(mem, root, start, len, n - 1).2
            - chunk_at(mem, root, start, len, n - 1).1
    }
}

/// An address strictly inside page `p` lies that far into it.
proof fn lemma_in_page(x: int, p: int)
    requires
        p * 4096 < x < (p + 1) * 4096,
    ensures
        x % 4096 == x - p * 4096,
        x / 4096 == p,
{
    vstd::arithmetic::div_mod::lemma_fundamental_div_mod_converse(x, 4096, p, x - p * 4096);
}

/// The piece `k` of the `len` bytes at `start` holds the bytes from its
/// start (`start` itself or the start of its page) to the end of its page or
/// of the range.
proof fn lemma_piece_len(mem: PhysMemory, root: usize, start: int, len: int, k: int)
    requires
        0 <= start,
        0 < len,
        0 <= k < chunk_count(start, len),
    ensures
        ({
            let p = start / 4096 + k;
            let s = if k == 0 {
                start
            } else {
                p * 4096
            };
            let e = if (p + 1) * 4096 <= start + len {
                (p + 1) * 4096
            } else {
                start + len
            };
            &&& chunk_at(mem, root, start, len, k).2 - chunk_at(mem, root, start, len, k).1 == e - s
            &&& p * 4096 < e
        }),
{
    let p = start / 4096 + k;
    let end = start + len;
    vstd::arithmetic::div_mod::lemma_fundamental_div_mod(start, 4096);
    vstd::arithmetic::div_mod::lemma_fundamental_div_mod(end - 1, 4096);
    assert(p <= (end - 1) / 4096);
    assert(p * 4096 <= end - 1);
    let e = if (p + 1) * 4096 <= end {
        (p + 1) * 4096
    } else {
        end
    };
    if e == (p + 1) * 4096 {
        vstd::arithmetic::div_mod::lemma_mod_multiples_basic(p + 1, 4096);
    } else {
        lemma_in_page(e, p);
    }
    if k == 0 {
        assert(start % 4096 == start - p * 4096);
    }
}

/// The first `n` pieces hold the bytes from `start` up to the end of the
/// `n`-th page (or to the end of the range).
proof fn lemma_pieces_prefix(mem: PhysMemory, root: usize, start: int, len: int, n: int)
    requires
        0 <= start,
        0 < len,
        1 <= n <= chunk_count(start, len),
    ensures
        pieces_bytes(mem, root, start, len, n) == (if (start / 4096 + n) * 4096 <= start + len {
            (start / 4096 + n) * 4096
        } else {
            start + len
        }) - start,
    decreases n,
{
    lemma_piece_len(mem, root, start, len, n - 1);
    let c = chunk_at(mem, root, start, len, n - 1);
    assert(pieces_bytes(mem, root, start, len, n) == pieces_bytes(mem, root, start, len, n - 1) + c.2 - c.1);
    let p = start / 4096 + (n - 1);
    if n > 1 {
        lemma_pieces_prefix(mem, root, start, len, n - 1);
        assert(p * 4096 < start + len);
        assert(pieces_bytes(mem, root, start, len, n - 1) == p * 4096 - start);
    }
}

/// The pieces of a range hold exactly its bytes.
pub proof fn lemma_pieces_cover(mem: PhysMemory, root: usize, start: int, len: int)
    requires
        0 <= start,
        0 <= len,
    ensures
        pieces_bytes(mem, root, start, len, chunk_count(start, len)) == len,
{
    if len > 0 {
        lemma_pieces_prefix(mem, root, start, len, chunk_count(start, len));
    }
}

/// Whether every page touched by the `len` bytes at `start` is reached by a
/// walk in the address space named by `token`.
pub fn pages_reached(mem: &PhysMemory, token: usize, start: usize, len: usize) -> (r: bool)
    requires
        start + len <= usize::MAX,
        walkable(*mem, (token as u64 & PPN_MASK) as usize),
    ensures
        r == forall|v: int|
            (start / PAGE_SIZE) as int <= v < (start / PAGE_SIZE) as int + chunk_count(start as int, len as int)
                ==> #[trigger] walk(*mem, (token as u64 & PPN_MASK) as usize, v) is Some,
{
    let table = PageTable::from_token(token);
    if len == 0 {
        return true;
    }
    let first = start / PAGE_SIZE;
    let last = (start + len - 1) / PAGE_SIZE;
    let mut v = first;
    while v <= last
        invariant
            first == start / PAGE_SIZE,
            last == (start + len - 1) / (PAGE_SIZE as int),
            first <= v <= last + 1,
            last < usize::MAX,
            table.root() == (token as u64 & PPN_MASK) as usize,
            walkable(*mem, table.root()),
            forall|u: int| first <= u < v ==> #[trigger] walk(*mem, table.root(), u) is Some,
            chunk_count(start as int, len as int) == last - first + 1,
        decreases last + 1 - v,
    {
        if table.translate(mem, VirtPageNum(v)).is_none() {
            proof {
                assert(walk(*mem, table.root(), v as int) is None);
                assert(chunk_count(start as int, len as int) == last - first + 1);
            }
            return false;
        }
        v = v + 1;
    }
    true
}

/// The pieces of physical memory that hold the `len` bytes at virtual
/// address `start` in the address space named by `token`, page by page:
/// each piece is a frame and a byte range inside it.
pub fn translated_byte_buffer(mem: &PhysMemory, token: usize, start: usize, len: usize) -> (r: Vec<
    (PhysPageNum, usize, usize),
>)
    requires
        start + len + PAGE_SIZE <= usize::MAX,
        walkable(*mem, (token as u64 & PPN_MASK) as usize),
        forall|v: int|
            (start / PAGE_SIZE) as int <= v < (start / PAGE_SIZE) as int + chunk_count(start as int, len as int)
                ==> #[trigger] walk(*mem, (token as u64 & PPN_MASK) as usize, v) is Some,
    ensures
        r.len() == chunk_count(start as int, len as int),
        forall|k: int|
            0 <= k < r.len() ==> #[trigger] r@[k] == chunk_at(
                *mem,
                (token as u64 & PPN_MASK) as usize,
                start as int,
                len as int,
                k,
            ),
{
    let page_table = PageTable::from_token(token);
    let ghost root = page_table.root();
    let mut cur = start;
    let end = start + len;
    let mut ret: Vec<(PhysPageNum, usize, usize)> = Vec::new();
    while cur < end
        invariant
            start + len + PAGE_SIZE <= usize::MAX,
            end == start + len,
            root == page_table.root(),
            root == (token as u64 & PPN_MASK) as usize,
            walkable(*mem, root),
            forall|v: int|
                (start / PAGE_SIZE) as int <= v < (start / PAGE_SIZE) as int + chunk_count(
                    start as int,
                    len as int,
                ) ==> #[trigger] walk(*mem, root, v) is Some,
            start <= cur <= end,
            cur < end ==> cur / PAGE_SIZE == start / PAGE_SIZE + ret.len(),
            cur < end && ret.len() > 0 ==> cur % PAGE_SIZE == 0,
            ret.len() == 0 ==> cur == start,
            cur >= end ==> ret.len() == chunk_count(start as int, len as int),
            forall|k: int|
                0 <= k < ret.len() ==> #[trigger] ret@[k] == chunk_at(
                    *mem,
                    root,
                    start as int,
                    len as int,
                    k,
                ),
        decreases end - cur,
    {
        let start_va = VirtAddr(cur);
        let mut vpn = start_va.floor();
        let ghost k = ret.len() as int;
        proof {
            assert(start / PAGE_SIZE <= vpn.0 < start / PAGE_SIZE + chunk_count(start as int, len as int));
        }
        let ppn = page_table.translate(mem, vpn).unwrap().ppn();
        vpn.step();
        let mut end_va = VirtAddr(vpn.0 * PAGE_SIZE);
        if end < end_va.0 {
            end_va = VirtAddr(end);
        }
        if end_va.page_offset() == 0 {
            ret.push((ppn, start_va.page_offset(), PAGE_SIZE));
        } else {
            ret.push((ppn, start_va.page_offset(), end_va.page_offset()));
        }
        proof {
            assert(ret@[k] == chunk_at(*mem, root, start as int, len as int, k));
        }
        cur = end_va.0;
    }
    ret
}


/// Mapping a page that was not mapped and then unmapping it gives every
/// page the mapping it had before.
pub proof fn lemma_unmap_undoes_map(
    m0: PhysMemory,
    m1: PhysMemory,
    m2: PhysMemory,
    root: usize,
    vpn: int,
    e: u64,
)
    requires
        mapping(m0, root, vpn) is None,
        forall|a: int, b: int, x: int|
            0 <= a < 512 && 0 <= b < 512 && 0 <= x < 512 ==> #[trigger] mapped_at(m1, root, a, b, x)
                == if seq![a, b, x] == vpn_indexes(vpn) {
                Some(e)
            } else {
                mapped_at(m0, root, a, b, x)
            },
        forall|a: int, b: int, x: int|
            0 <= a < 512 && 0 <= b < 512 && 0 <= x < 512 ==> #[trigger] mapped_at(m2, root, a, b, x)
                == if seq![a, b, x] == vpn_indexes(vpn) {
                None
            } else {
                mapped_at(m1, root, a, b, x)
            },
    ensures
        forall|a: int, b: int, x: int|
            0 <= a < 512 && 0 <= b < 512 && 0 <= x < 512 ==> #[trigger] mapped_at(m2, root, a, b, x)
                == mapped_at(m0, root, a, b, x),
{
    assert forall|a: int, b: int, x: int|
        0 <= a < 512 && 0 <= b < 512 && 0 <= x < 512 implies #[trigger] mapped_at(m2, root, a, b, x)
            == mapped_at(m0, root, a, b, x) by {
        assert(mapped_at(m1, root, a, b, x) == if seq![a, b, x] == vpn_indexes(vpn) {
            Some(e)
        } else {
            mapped_at(m0, root, a, b, x)
        });
        if seq![a, b, x] == vpn_indexes(vpn) {
            assert(a == vpn_indexes(vpn)[0] && b == vpn_indexes(vpn)[1] && x == vpn_indexes(vpn)[2]);
        }
    }
}

/// After `map(vpn, ppn, flags)`, translating `vpn` gives an entry that holds
/// `ppn` and the flags with the valid bit.
pub proof fn lemma_translate_after_map(mem: PhysMemory, root: usize, vpn: int, ppn: usize, flags: u8)
    requires
        ppn <= PPN_MASK,
        mapping(mem, root, vpn) == Some(((ppn as u64) << 10u64) | ((flags | PTE_V) as u64)),
    ensures
        walk(mem, root, vpn) == Some(((ppn as u64) << 10u64) | ((flags | PTE_V) as u64)),
        pte_ppn(walk(mem, root, vpn)->0) == ppn,
        walk(mem, root, vpn)->0 as u8 == flags | PTE_V,
{
    lemma_pte_round_trip(ppn, flags | PTE_V);
}

/// The table named by a table's token has the same root page.
pub proof fn lemma_token_round_trip(root: usize)
    requires
        root <= PPN_MASK,
    ensures
        ((((8u64 << 60u64) | (root as u64)) & PPN_MASK) as usize) == root,
{
    let r = root as u64;
    assert((((8u64 << 60u64) | r) & 0xfff_ffff_ffffu64) == r) by (bit_vector)
        requires
            r <= 0xfff_ffff_ffffu64,
    ;
}


/// The physical address that virtual address `va` leads to from `root`.
pub open spec fn va_to_pa(mem: PhysMemory, root: usize, va: int) -> int {
    pte_ppn(walk(mem, root, va / (PAGE_SIZE as int))->0) * (PAGE_SIZE as int) + va % (PAGE_SIZE as int)
}

/// Whether `va` translates from `root` to a byte of `mem`.
pub open spec fn va_readable(mem: PhysMemory, root: usize, va: int) -> bool {
    &&& walk(mem, root, va / (PAGE_SIZE as int)) is Some
    &&& mem.has(pte_ppn(walk(mem, root, va / (PAGE_SIZE as int))->0) as int)
}

/// The byte at virtual address `va` in the address space of `root`.
pub open spec fn va_byte(mem: PhysMemory, root: usize, va: int) -> u8 {
    mem.byte_at(va_to_pa(mem, root, va))
}

/// The bytes from virtual address `ptr` up to the first zero byte, in the
/// address space named by `token`; that zero must come.
pub fn translated_string(mem: &PhysMemory, token: usize, ptr: usize) -> (r: Vec<u8>)
    requires
        usize::MAX == u64::MAX,
        walkable(*mem, (token as u64 & PPN_MASK) as usize),
        exists|n: int|
            0 <= n && ptr + n <= usize::MAX && #[trigger] va_byte(
                *mem,
                (token as u64 & PPN_MASK) as usize,
                ptr + n,
            ) == 0 && forall|k: int|
                0 <= k <= n ==> #[trigger] va_readable(*mem, (token as u64 & PPN_MASK) as usize, ptr + k),
    ensures
        forall|k: int|
            0 <= k < r.len() ==> #[trigger] r@[k] == va_byte(*mem, (token as u64 & PPN_MASK) as usize, ptr + k)
                && r@[k] != 0,
        ptr + r.len() <= usize::MAX,
        va_byte(*mem, (token as u64 & PPN_MASK) as usize, ptr + r.len()) == 0,
{
    let page_table = PageTable::from_token(token);
    let ghost root = page_table.root();
    let ghost n = choose|n: int|
        0 <= n && ptr + n <= usize::MAX && #[trigger] va_byte(*mem, root, ptr + n) == 0 && forall|k: int|
            0 <= k <= n ==> #[trigger] va_readable(*mem, root, ptr + k);
    let mut ret: Vec<u8> = Vec::new();
    let mut va = ptr;
    loop
        invariant
            usize::MAX == u64::MAX,
            root == page_table.root(),
            root == (token as u64 & PPN_MASK) as usize,
            walkable(*mem, root),
            0 <= n && ptr + n <= usize::MAX,
            va_byte(*mem, root, ptr + n) == 0,
            forall|k: int| 0 <= k <= n ==> #[trigger] va_readable(*mem, root, ptr + k),
            va == ptr + ret.len(),
            ret.len() <= n,
            forall|k: int| 0 <= k < ret.len() ==> #[trigger] ret@[k] == va_byte(*mem, root, ptr + k) && ret@[k] != 0,
        ensures
            va == ptr + ret.len(),
            forall|k: int| 0 <= k < ret.len() ==> #[trigger] ret@[k] == va_byte(*mem, root, ptr + k) && ret@[k] != 0,
            va_byte(*mem, root, ptr + ret.len()) == 0,
        decreases n - ret.len(),
    {
        proof {
            assert(va_readable(*mem, root, ptr + ret.len()));
        }
        let pa = page_table.translate_va(mem, VirtAddr(va)).unwrap();
        proof {
            lemma_ppn_bound(walk(*mem, root, (va / PAGE_SIZE) as int)->0);
            assert(pa.0 == va_to_pa(*mem, root, va as int));
        }
        let ch = mem.read_byte(pa);
        if ch == 0 {
            break;
        }
        ret.push(ch);
        va = va + 1;
    }
    ret
}

} // verus!
