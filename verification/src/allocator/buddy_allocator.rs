//! A buddy allocator whose free space is kept in an implicit binary tree:
//! `block[i]` is the size of the largest free block inside node `i`.
use vstd::prelude::*;

verus! {

use vstd::arithmetic::power2::{pow2, is_pow2};
use crate::bits::{log2, next_power_of_two, lemma_is_pow2_iff, lemma_log2_bounds, lemma_pow2_succ, lemma_pow2_divides};
use crate::layout::{Layout, request_size};
use super::tree::{
    combine,
    depth,
    descend,
    first_leaf,
    first_zero,
    is_ancestor,
    leaf_of,
    marked_free,
    marked_used,
    max_of,
    node_offset,
    node_ok,
    size_of_node,
    num_nodes,
    tree_ok,
    lemma_ancestor_lt,
    lemma_ancestor_trans_up,
    lemma_depth_bounds,
    lemma_depth_children,
    lemma_depth_range,
    lemma_descend_step,
    lemma_full_children,
    lemma_climb_start,
    lemma_climb_step,
    lemma_climb_done,
    lemma_node_size_le_total,
    climb_inv,
    refreshed,
    lemma_node_offset_range,
    lemma_node_size_child,
    lemma_node_size_pos,
    lemma_node_size_total,
    lemma_depth_step,
    lemma_size_halves,
    lemma_descend,
    lemma_free_finds_allocated,
    lemma_free_restores,
    lemma_full_below,
    lemma_root_ancestor,
    lemma_unrelated_apart,
};
use crate::bits::is_power_of_two;
use super::usage::{free_in, lemma_first_zero, lemma_free_gives, lemma_free_in_bounds, lemma_largest_le_free, lemma_use_takes};

/// The allocator state: an arena of `NUM / 2` leaves of `MINIMUM` bytes
/// starting at `offset`, and the tree of largest free blocks.
pub struct BuddyAllocatorInner<const NUM: usize, const MINIMUM: usize> {
    total: usize,
    offset: usize,
    pub used: usize,
    block: [usize; NUM],
}

impl<const NUM: usize, const MINIMUM: usize> BuddyAllocatorInner<NUM, MINIMUM> {
    /// The tree shape parameters an allocation can work with.
    pub open spec fn params_ok() -> bool {
        &&& is_pow2(NUM as int)
        &&& NUM >= 2
        &&& is_pow2(MINIMUM as int)
        &&& MINIMUM >= 2
        &&& NUM * MINIMUM <= usize::MAX
    }

    /// Depth of the leaves.
    pub open spec fn levels() -> nat {
        log2((NUM / 2) as nat)
    }

    /// Bytes under management.
    pub closed spec fn arena_size(&self) -> int {
        self.total as int
    }

    /// Bytes handed out so far.
    pub closed spec fn used_bytes(&self) -> int {
        self.used as int
    }



    /// The usage counter is the bytes held by the blocks in use: the arena
    /// less the bytes still free in the tree.
    pub open spec fn accounted(&self) -> bool {
        Self::params_ok() ==> self.used_bytes() == self.arena_size() - free_in(
            self.blocks(),
            Self::levels(),
            MINIMUM as nat,
            0,
        )
    }

    /// Address of the first managed byte.
    pub closed spec fn arena_base(&self) -> int {
        self.offset as int
    }

    /// The largest-free-block entries of the tree nodes.
    pub closed spec fn blocks(&self) -> Seq<usize> {
        self.block@
    }

    pub closed spec fn wf(&self) -> bool {
        &&& is_pow2(NUM as int)
        &&& is_pow2(MINIMUM as int)
        &&& self.total == NUM * (MINIMUM / 2)
        &&& self.offset + self.total <= usize::MAX
        &&& Self::params_ok() ==> tree_ok(self.block@, Self::levels(), MINIMUM as nat)
    }

    /// Size of the largest block an allocation can still be served from.
    pub open spec fn largest_free(&self) -> int {
        self.blocks()[0] as int
    }

    /// The node an allocation of `size` bytes takes.
    pub open spec fn alloc_node(&self, size: int) -> int {
        descend(self.blocks(), Self::levels(), MINIMUM as nat, 0, size)
    }

    /// The node a free of the block at `ptr` gives back, or -1 if none is in use.
    pub open spec fn free_node(&self, ptr: int) -> int {
        first_zero(
            self.blocks(),
            leaf_of(Self::levels(), MINIMUM as nat, ptr - self.arena_base()),
        )
    }

    /// `layout` can be served: a large enough block is free and the usage
    /// counter does not overflow.
    pub open spec fn can_allocate(&self, layout: Layout) -> bool {
        &&& request_size(layout, MINIMUM as int) <= self.largest_free()
        &&& self.used_bytes() + request_size(layout, MINIMUM as int) <= usize::MAX
    }

    /// `new` is `old` after an allocation for `layout` that returned `ptr`:
    /// the search's node is marked in use and its address returned.
    pub open spec fn allocated(old: Self, new: Self, layout: Layout, ptr: usize) -> bool {
        let size = request_size(layout, MINIMUM as int);
        let f = old.alloc_node(size);
        &&& ptr == old.arena_base() + node_offset(Self::levels(), MINIMUM as nat, f)
        &&& size_of_node(Self::levels(), MINIMUM as nat, f) == size
        &&& old.blocks()[f] == size
        &&& marked_used(old.blocks(), new.blocks(), f)
        &&& new.used_bytes() == old.used_bytes() + size
        &&& new.arena_base() == old.arena_base()
        &&& new.arena_size() == old.arena_size()
    }

    /// Freeing `ptr` with `layout` neither hits a node smaller than the
    /// layout nor drives the usage counter below zero.
    pub open spec fn can_free(&self, ptr: usize, layout: Layout) -> bool {
        &&& self.arena_base() <= ptr < self.arena_base() + self.arena_size()
        &&& self.free_node(ptr as int) >= 0 ==> {
            let ns = size_of_node(Self::levels(), MINIMUM as nat, self.free_node(ptr as int));
            &&& ns >= request_size(layout, MINIMUM as int)
            &&& self.used_bytes() >= ns
        }
    }

    /// `new` is `old` after freeing `ptr`: the first node in use above the
    /// leaf of `ptr` is freed and its ancestors recombined; with no such node
    /// nothing changes.
    pub open spec fn freed(old: Self, new: Self, ptr: usize) -> bool {
        let f = old.free_node(ptr as int);
        &&& new.arena_base() == old.arena_base()
        &&& new.arena_size() == old.arena_size()
        &&& f < 0 ==> new.blocks() == old.blocks() && new.used_bytes() == old.used_bytes()
        &&& f >= 0 ==> marked_free(old.blocks(), new.blocks(), Self::levels(), MINIMUM as nat, f)
            && new.used_bytes() == old.used_bytes() - size_of_node(Self::levels(), MINIMUM as nat, f)
    }

    pub proof fn lemma_params()
        requires
            Self::params_ok(),
        ensures
            pow2(Self::levels()) == NUM / 2,
            num_nodes(Self::levels()) == NUM - 1,
            first_leaf(Self::levels()) == NUM / 2 - 1,
            pow2(Self::levels()) * MINIMUM == NUM * (MINIMUM / 2),
            MINIMUM % 2 == 0,
            NUM % 2 == 0,
            pow2(Self::levels()) * MINIMUM <= usize::MAX,
            2 * (NUM * (MINIMUM / 2)) == NUM * MINIMUM,
    {
        crate::bits::lemma_is_pow2_half(NUM as int);
        crate::bits::lemma_is_pow2_half(MINIMUM as int);
        lemma_is_pow2_iff((NUM / 2) as int);
        lemma_pow2_succ(Self::levels());
        assert((NUM / 2) * MINIMUM == NUM * (MINIMUM / 2)) by (nonlinear_arith)
            requires
                MINIMUM % 2 == 0,
                NUM % 2 == 0,
        ;
        assert(2 * (NUM * (MINIMUM / 2)) == NUM * MINIMUM) by (nonlinear_arith)
            requires
                MINIMUM % 2 == 0,
        ;
    }

    /// Bytes handed out so far.
    pub fn used(&self) -> (r: usize)
        ensures
            r == self.used_bytes(),
    {
        self.used
    }

    /// The usage counter stays within the arena, and what is in use and the
    /// largest free block together fit in it.
    pub proof fn lemma_usage_bounded(&self)
        requires
            self.wf(),
            Self::params_ok(),
            self.accounted(),
        ensures
            0 <= self.used_bytes() <= self.arena_size(),
            self.used_bytes() + self.largest_free() <= self.arena_size(),
    {
        Self::lemma_params();
        let lvl = Self::levels();
        lemma_pow2_succ(lvl);
        crate::bits::lemma_pow2_zero();
        lemma_node_size_total(lvl, MINIMUM as nat, 0);
        lemma_free_in_bounds(self.block@, lvl, MINIMUM as nat, 0);
        lemma_largest_le_free(self.block@, lvl, MINIMUM as nat, 0);
    }

    pub fn new() -> (s: Self)
        requires
            is_pow2(NUM as int),
            is_pow2(MINIMUM as int),
            NUM * (MINIMUM / 2) <= usize::MAX,
        ensures
            s.wf(),
            s.arena_size() == NUM * (MINIMUM / 2),
            s.arena_base() == 0,
            s.used_bytes() == 0,
            forall|i: int| 0 <= i < NUM ==> s.blocks()[i] == 0,
    {
        let s = Self { total: NUM * (MINIMUM / 2), offset: 0, used: 0, block: [0;NUM] };
        proof {
            assert(s.block@.len() == NUM);
            if Self::params_ok() {
                Self::lemma_params();
                let lvl = Self::levels();
                assert forall|i: int| 0 <= i < num_nodes(lvl) implies #[trigger] node_ok(
                    s.block@,
                    lvl,
                    MINIMUM as nat,
                    i,
                ) by {
                    lemma_node_size_pos(lvl, MINIMUM as nat, i);
                    lemma_pow2_succ(lvl);
                }
            }
        }
        s
    }

    /// Points the allocator at the arena starting at `offset` and marks the
    /// whole arena free: every node's entry becomes its own size.
    pub fn init(&mut self, offset: usize)
        requires
            old(self).wf(),
            offset + old(self).arena_size() <= usize::MAX,
            old(self).arena_size() <= usize::MAX / 2,
        ensures
            final(self).wf(),
            final(self).arena_base() == offset,
            final(self).arena_size() == old(self).arena_size(),
            final(self).used_bytes() == old(self).used_bytes(),
            final(self).blocks().len() == NUM,
            Self::params_ok() ==> forall|i: int|
                0 <= i < NUM - 1 ==> final(self).blocks()[i] == size_of_node(
                    Self::levels(),
                    MINIMUM as nat,
                    i,
                ),
            Self::params_ok() ==> final(self).largest_free() == final(self).arena_size(),
            final(self).blocks()[NUM - 1] == old(self).blocks()[NUM - 1],
            old(self).used_bytes() == 0 ==> final(self).accounted(),
    {
        self.offset = offset;
        let mut node_size = self.total * 2;
        let ghost lvl = Self::levels();
        let ghost b0 = self.block@;
        proof {
            lemma_is_pow2_iff(NUM as int);
            if Self::params_ok() {
                Self::lemma_params();
                lemma_node_size_total(lvl, MINIMUM as nat, 0);
                crate::bits::lemma_pow2_zero();
            }
        }
        let mut i: usize = 0;
        while i < NUM - 1
            invariant
                0 <= i <= NUM - 1,
                lvl == Self::levels(),
                self.offset == offset,
                self.total == old(self).total,
                self.used == old(self).used,
                self.block@.len() == NUM,
                Self::params_ok() ==> (i == 0 ==> node_size == 2 * self.total),
                Self::params_ok() ==> (i > 0 ==> node_size == size_of_node(
                    lvl,
                    MINIMUM as nat,
                    i - 1,
                )),
                Self::params_ok() ==> self.total == size_of_node(lvl, MINIMUM as nat, 0),
                forall|j: int|
                    0 <= j < i && #[trigger] Self::params_ok() ==> self.block@[j] == size_of_node(
                        lvl,
                        MINIMUM as nat,
                        j,
                    ),
                forall|j: int| NUM - 1 <= j < NUM ==> #[trigger] self.block@[j] == b0[j],
                node_size <= 2 * self.total,
                self.total <= usize::MAX / 2,
            decreases NUM - 1 - i,
        {
            let start_of_level = is_power_of_two(i + 1);
            proof {
                if Self::params_ok() {
                    Self::lemma_params();
                    lemma_depth_range(lvl, i as int);
                    if i > 0 {
                        lemma_depth_step(i as int);
                        lemma_depth_range(lvl, i - 1);
                        if start_of_level {
                            lemma_size_halves(lvl, MINIMUM as nat, i - 1, i as int);
                        }
                    } else {
                        crate::bits::lemma_pow2_zero();
                        lemma_is_pow2_iff(1);
                    }
                    lemma_node_size_le_total(lvl, MINIMUM as nat, i as int);
                }
            }
            if start_of_level {
                node_size = node_size / 2;
            }
            self.block[i] = node_size;
            i = i + 1;
        }
        proof {
            if Self::params_ok() {
                Self::lemma_params();
                let lvl = Self::levels();
                assert forall|j: int| 0 <= j < num_nodes(lvl) implies #[trigger] node_ok(
                    self.block@,
                    lvl,
                    MINIMUM as nat,
                    j,
                ) by {
                    assert(self.block@[j] == size_of_node(lvl, MINIMUM as nat, j));
                    lemma_depth_range(lvl, j);
                    if j < first_leaf(lvl) {
                        lemma_pow2_succ(lvl);
                        lemma_node_size_child(lvl, MINIMUM as nat, j);
                        assert(self.block@[2 * j + 1] == size_of_node(lvl, MINIMUM as nat, 2 * j + 1));
                        assert(self.block@[2 * j + 2] == size_of_node(lvl, MINIMUM as nat, 2 * j + 2));
                    }
                }
                assert(self.block@[0] == size_of_node(lvl, MINIMUM as nat, 0));
                assert(free_in(self.block@, lvl, MINIMUM as nat, 0) == self.total);
            }
        }
    }

    /// Gives back the block at `ptr`: the search climbs from the leaf that
    /// holds `ptr` to the first node marked in use, frees it and recombines
    /// its ancestors. Nothing changes when no node on that path is in use.
    pub fn dealloc(&mut self, ptr: usize, layout: Layout)
        requires
            old(self).wf(),
            Self::params_ok(),
            layout.valid(),
            old(self).can_free(ptr, layout),
        ensures
            final(self).wf(),
            Self::freed(*old(self), *final(self), ptr),
            old(self).accounted() ==> final(self).accounted(),
    {
        proof {
            Self::lemma_params();
        }
        let ghost lvl = Self::levels();
        let ghost b0 = self.block@;
        let _size = self.calc_size(&layout);
        let addr = ptr - self.offset;
        let mut node_size = MINIMUM;
        proof {
            assert(addr / MINIMUM < pow2(lvl)) by (nonlinear_arith)
                requires
                    addr < pow2(lvl) * MINIMUM,
                    MINIMUM >= 1,
            ;
            lemma_pow2_succ(lvl);
        }
        let mut idx = addr / MINIMUM + (NUM / 2) - 1;
        let ghost leaf = idx as int;
        let ghost mut prev: int = -1;
        proof {
            assert(leaf == leaf_of(lvl, MINIMUM as nat, ptr - self.offset));
            assert(first_leaf(lvl) <= leaf < num_nodes(lvl));
            lemma_depth_range(lvl, leaf);
            crate::bits::lemma_pow2_zero();
            assert(depth(leaf) == lvl);
            assert(pow2((lvl - depth(leaf)) as nat) == 1);
            assert(size_of_node(lvl, MINIMUM as nat, leaf) == MINIMUM);
        }
        while self.block[idx] != 0
            invariant
                Self::params_ok(),
                lvl == Self::levels(),
                self.block@ == b0,
                *self == *old(self),
                self.wf(),
                leaf == leaf_of(lvl, MINIMUM as nat, ptr - self.offset),
                0 <= idx < NUM - 1,
                idx == leaf || is_ancestor(idx as int, leaf),
                node_size == size_of_node(lvl, MINIMUM as nat, idx as int),
                first_zero(b0, idx as int) == first_zero(b0, leaf),
                idx != leaf ==> (prev == 2 * idx + 1 || prev == 2 * idx + 2) && b0[prev] != 0,
                leaf >= first_leaf(lvl),
                leaf < num_nodes(lvl),
            decreases idx,
        {
            proof {
                Self::lemma_params();
                lemma_depth_range(lvl, idx as int);
                lemma_node_size_le_total(lvl, MINIMUM as nat, idx as int);
            }
            node_size = node_size * 2;
            if idx == 0 {
                proof {
                    assert(self.wf());
                    assert(first_zero(b0, 0) == -1);
                    assert(old(self).free_node(ptr as int) == first_zero(b0, leaf));
                }
                return;
            }
            proof {
                prev = idx as int;
                let p = (idx as int - 1) / 2;
                assert(depth(idx as int) == depth(p) + 1);
                lemma_size_halves(lvl, MINIMUM as nat, p, idx as int);
                if idx as int != leaf {
                    lemma_ancestor_trans_up(p, idx as int, leaf);
                }
            }
            idx = (idx + 1) / 2 - 1;
        }
        let ghost f = idx as int;
        proof {
            lemma_depth_range(lvl, f);
            lemma_node_size_le_total(lvl, MINIMUM as nat, f);
            if f != leaf {
                lemma_ancestor_lt(f, leaf);
            }
        }
        self.used = self.used - node_size;
        self.block[idx] = node_size;
        proof {
            lemma_climb_start(b0, self.block@, lvl, MINIMUM as nat, f, true);
        }
        while idx != 0
            invariant
                Self::params_ok(),
                lvl == Self::levels(),
                0 <= idx < NUM - 1,
                self.block@.len() == NUM,
                self.offset == old(self).offset,
                self.total == old(self).total,
                self.used == old(self).used - size_of_node(lvl, MINIMUM as nat, f),
                node_size == size_of_node(lvl, MINIMUM as nat, idx as int),
                climb_inv(b0, self.block@, lvl, MINIMUM as nat, f, idx as int, true),
            decreases idx,
        {
            let ghost c = idx as int;
            let ghost prev_b = self.block@;
            idx = (idx + 1) / 2 - 1;
            proof {
                Self::lemma_params();
                lemma_climb_step(
                    b0,
                    prev_b,
                    prev_b.update(
                        idx as int,
                        refreshed(prev_b, lvl, MINIMUM as nat, idx as int, true) as usize,
                    ),
                    lvl,
                    MINIMUM as nat,
                    f,
                    c,
                    true,
                );
                lemma_depth_children(idx as int);
                lemma_depth_range(lvl, idx as int);
                lemma_size_halves(lvl, MINIMUM as nat, idx as int, c);
                lemma_node_size_le_total(lvl, MINIMUM as nat, idx as int);
            }
            node_size = node_size * 2;
            let left = self.block[idx * 2 + 1];
            let right = self.block[idx * 2 + 2];
            if left + right == node_size {
                self.block[idx] = node_size;
            } else {
                self.block[idx] = if left >= right {
                    left
                } else {
                    right
                };
            }
            proof {
                assert(self.block@ == prev_b.update(
                    idx as int,
                    refreshed(prev_b, lvl, MINIMUM as nat, idx as int, true) as usize,
                ));
            }
        }
        proof {
            lemma_climb_done(b0, self.block@, lvl, MINIMUM as nat, f, true);
            lemma_first_zero(b0, leaf);
            lemma_free_gives(b0, self.block@, lvl, MINIMUM as nat, f);
        }
    }

    /// Node `u` is a block in use: its entry is zero and no node above it is.
    pub open spec fn in_use(&self, u: int) -> bool {
        &&& 0 <= u < num_nodes(Self::levels())
        &&& self.blocks()[u] == 0
        &&& u == 0 || first_zero(self.blocks(), (u - 1) / 2) == -1
    }

    /// A block handed out overlaps no block that was in use before.
    pub proof fn lemma_allocation_apart(s0: Self, s1: Self, layout: Layout, ptr: usize, u: int)
        requires
            s0.wf(),
            Self::params_ok(),
            layout.valid(),
            s0.can_allocate(layout),
            Self::allocated(s0, s1, layout, ptr),
            s0.in_use(u),
        ensures
            ptr + request_size(layout, MINIMUM as int) <= s0.arena_base() + node_offset(
                Self::levels(),
                MINIMUM as nat,
                u,
            ) || s0.arena_base() + node_offset(Self::levels(), MINIMUM as nat, u) + size_of_node(
                Self::levels(),
                MINIMUM as nat,
                u,
            ) <= ptr,
    {
        Self::lemma_params();
        let lvl = Self::levels();
        let size = request_size(layout, MINIMUM as int);
        let b0 = s0.blocks();
        lemma_pow2_succ(lvl);
        crate::bits::lemma_pow2_zero();
        lemma_node_size_total(lvl, MINIMUM as nat, 0);
        assert(node_ok(b0, lvl, MINIMUM as nat, 0));
        crate::layout::lemma_request_size(layout, MINIMUM as int);
        lemma_descend(b0, lvl, MINIMUM as nat, 0, size);
        let f = s0.alloc_node(size);
        lemma_depth_range(lvl, u);
        lemma_node_size_pos(lvl, MINIMUM as nat, u);
        assert(f != u);
        if is_ancestor(u, f) {
            if u != 0 {
                lemma_root_ancestor(u);
            }
            assert(b0[u] >= size);
        }
        if is_ancestor(f, u) {
            lemma_full_below(b0, lvl, MINIMUM as nat, f, u);
        }
        lemma_unrelated_apart(lvl, MINIMUM as nat, f, u);
    }

    /// Freeing a block with the layout it was just allocated with is always
    /// possible, finds exactly that block, and restores the allocator to the
    /// state it had before the allocation.
    #[verifier::spinoff_prover]
    #[verifier::rlimit(40)]
    pub proof fn lemma_dealloc_undoes_allocate(
        s0: Self,
        s1: Self,
        s2: Self,
        layout: Layout,
        ptr: usize,
    )
        requires
            s0.wf(),
            Self::params_ok(),
            layout.valid(),
            s0.can_allocate(layout),
            Self::allocated(s0, s1, layout, ptr),
        ensures
            s1.can_free(ptr, layout),
            s1.free_node(ptr as int) == s0.alloc_node(request_size(layout, MINIMUM as int)),
            Self::freed(s1, s2, ptr) ==> s2.blocks() == s0.blocks() && s2.used_bytes()
                == s0.used_bytes() && s2.arena_base() == s0.arena_base() && s2.arena_size()
                == s0.arena_size(),
    {
        Self::lemma_params();
        let lvl = Self::levels();
        let size = request_size(layout, MINIMUM as int);
        let b0 = s0.blocks();
        lemma_pow2_succ(lvl);
        crate::bits::lemma_pow2_zero();
        lemma_node_size_total(lvl, MINIMUM as nat, 0);
        assert(node_ok(b0, lvl, MINIMUM as nat, 0));
        crate::layout::lemma_request_size(layout, MINIMUM as int);
        lemma_free_finds_allocated(b0, s1.blocks(), lvl, MINIMUM as nat, size);
        let f = s0.alloc_node(size);
        lemma_descend(b0, lvl, MINIMUM as nat, 0, size);
        lemma_depth_range(lvl, f);
        lemma_node_offset_range(lvl, MINIMUM as nat, f);
        assert(s1.free_node(ptr as int) == f);
        if Self::freed(s1, s2, ptr) {
            lemma_free_restores(b0, s1.blocks(), s2.blocks(), lvl, MINIMUM as nat, size);
        }
    }

    fn calc_size(&self, layout: &Layout) -> (r: usize)
        requires
            layout.valid(),
            is_pow2(MINIMUM as int),
        ensures
            r == request_size(*layout, MINIMUM as int),
            is_pow2(r as int),
            r >= MINIMUM,
    {
        let a = if layout.align >= MINIMUM {
            layout.align
        } else {
            MINIMUM
        };
        let p = next_power_of_two(layout.size);
        if a >= p {
            a
        } else {
            p
        }
    }

    /// Whether `layout` can be served now: a large enough block is free and
    /// the usage counter has room.
    pub fn can_serve(&self, layout: Layout) -> (r: bool)
        requires
            self.wf(),
            Self::params_ok(),
            layout.valid(),
        ensures
            r == self.can_allocate(layout),
    {
        let size = self.calc_size(&layout);
        size <= self.block[0] && self.used <= usize::MAX - size
    }

    /// Whether the block at `ptr` can be freed with `layout`: `ptr` lies in
    /// the arena and the node in use above its leaf, if any, is at least as
    /// large as the layout asks and counted in the usage.
    pub fn can_release(&self, ptr: usize, layout: Layout) -> (r: bool)
        requires
            self.wf(),
            Self::params_ok(),
            layout.valid(),
        ensures
            r == self.can_free(ptr, layout),
    {
        if ptr < self.offset || ptr - self.offset >= self.total {
            return false;
        }
        proof {
            Self::lemma_params();
        }
        let ghost lvl = Self::levels();
        let ghost b0 = self.block@;
        let size = self.calc_size(&layout);
        let addr = ptr - self.offset;
        let mut node_size = MINIMUM;
        proof {
            assert(addr / MINIMUM < pow2(lvl)) by (nonlinear_arith)
                requires
                    addr < pow2(lvl) * MINIMUM,
                    MINIMUM >= 1,
            ;
            lemma_pow2_succ(lvl);
        }
        let mut idx = addr / MINIMUM + (NUM / 2) - 1;
        let ghost leaf = idx as int;
        proof {
            assert(leaf == leaf_of(lvl, MINIMUM as nat, ptr - self.offset));
            assert(first_leaf(lvl) <= leaf < num_nodes(lvl));
            lemma_depth_range(lvl, leaf);
            crate::bits::lemma_pow2_zero();
            assert(depth(leaf) == lvl);
            assert(pow2((lvl - depth(leaf)) as nat) == 1);
            assert(size_of_node(lvl, MINIMUM as nat, leaf) == MINIMUM);
        }
        while self.block[idx] != 0
            invariant
                Self::params_ok(),
                lvl == Self::levels(),
                self.block@ == b0,
                self.wf(),
                self.offset <= ptr < self.offset + self.total,
                size == request_size(layout, MINIMUM as int),
                leaf == leaf_of(lvl, MINIMUM as nat, ptr - self.offset),
                0 <= idx < NUM - 1,
                idx == leaf || is_ancestor(idx as int, leaf),
                node_size == size_of_node(lvl, MINIMUM as nat, idx as int),
                first_zero(b0, idx as int) == first_zero(b0, leaf),
                leaf >= first_leaf(lvl),
                leaf < num_nodes(lvl),
            decreases idx,
        {
            proof {
                Self::lemma_params();
                lemma_depth_range(lvl, idx as int);
                lemma_node_size_le_total(lvl, MINIMUM as nat, idx as int);
            }
            node_size = node_size * 2;
            if idx == 0 {
                proof {
                    assert(first_zero(b0, 0) == -1);
                    assert(self.free_node(ptr as int) == first_zero(b0, leaf));
                    assert(self.arena_base() <= ptr < self.arena_base() + self.arena_size());
                }
                return true;
            }
            proof {
                let p = (idx as int - 1) / 2;
                assert(depth(idx as int) == depth(p) + 1);
                lemma_size_halves(lvl, MINIMUM as nat, p, idx as int);
                if idx as int != leaf {
                    lemma_ancestor_trans_up(p, idx as int, leaf);
                }
            }
            idx = (idx + 1) / 2 - 1;
        }
        proof {
            assert(first_zero(b0, idx as int) == idx);
            assert(self.free_node(ptr as int) == idx);
        }
        node_size >= size && self.used >= node_size
    }

    pub fn allocate(&mut self, layout: Layout) -> (ptr: usize)
        requires
            old(self).wf(),
            Self::params_ok(),
            layout.valid(),
            old(self).can_allocate(layout),
        ensures
            final(self).wf(),
            Self::allocated(*old(self), *final(self), layout, ptr),
            old(self).accounted() ==> final(self).accounted(),
            (ptr - old(self).arena_base()) % request_size(layout, MINIMUM as int) == 0,
            old(self).arena_base() <= ptr,
            ptr + request_size(layout, MINIMUM as int) <= old(self).arena_base() + old(self).arena_size(),
    {
        proof {
            Self::lemma_params();
        }
        let ghost lvl = Self::levels();
        let ghost b0 = self.block@;
        let size = self.calc_size(&layout);
        let mut node_size = self.total;
        let mut idx: usize = 0;
        proof {
            lemma_pow2_succ(lvl);
            assert(node_ok(b0, lvl, MINIMUM as nat, 0));
            crate::bits::lemma_pow2_zero();
            lemma_node_size_total(lvl, MINIMUM as nat, 0);
        }
        while node_size != size
            invariant
                Self::params_ok(),
                lvl == Self::levels(),
                self.block@ == b0,
                tree_ok(b0, lvl, MINIMUM as nat),
                is_pow2(size as int),
                MINIMUM <= size,
                0 <= idx < NUM - 1,
                node_size == size_of_node(lvl, MINIMUM as nat, idx as int),
                size <= node_size,
                size <= b0[idx as int],
                descend(b0, lvl, MINIMUM as nat, idx as int, size as int) == descend(
                    b0,
                    lvl,
                    MINIMUM as nat,
                    0,
                    size as int,
                ),
            decreases node_size,
        {
            proof {
                Self::lemma_params();
                lemma_descend_step(b0, lvl, MINIMUM as nat, idx as int, size as int);
            }
            if self.block[idx * 2 + 1] >= size {
                idx = idx * 2 + 1;
            } else {
                idx = idx * 2 + 2;
            }
            node_size = node_size / 2;
        }
        let ghost f = idx as int;
        proof {
            assert(node_ok(b0, lvl, MINIMUM as nat, f));
            lemma_depth_range(lvl, f);
            lemma_node_offset_range(lvl, MINIMUM as nat, f);
            lemma_node_size_le_total(lvl, MINIMUM as nat, f);
            assert(descend(b0, lvl, MINIMUM as nat, f, size as int) == f);
        }
        self.used = self.used + self.block[idx];
        self.block[idx] = 0;
        let offset = (idx + 1) * node_size - self.total;
        proof {
            lemma_climb_start(b0, self.block@, lvl, MINIMUM as nat, f, false);
        }
        while idx != 0
            invariant
                Self::params_ok(),
                lvl == Self::levels(),
                0 <= idx < NUM - 1,
                self.block@.len() == NUM,
                self.offset == old(self).offset,
                self.total == old(self).total,
                self.used == old(self).used + size,
                climb_inv(b0, self.block@, lvl, MINIMUM as nat, f, idx as int, false),
            decreases idx,
        {
            let ghost c = idx as int;
            let ghost prev = self.block@;
            idx = (idx + 1) / 2 - 1;
            proof {
                Self::lemma_params();
                lemma_climb_step(b0, prev, prev.update(idx as int, refreshed(prev, lvl, MINIMUM as nat, idx as int, false) as usize), lvl, MINIMUM as nat, f, c, false);
                lemma_depth_children(idx as int);
            }
            let l = self.block[idx * 2 + 1];
            let r = self.block[idx * 2 + 2];
            self.block[idx] = if l >= r {
                l
            } else {
                r
            };
            proof {
                assert(self.block@ == prev.update(idx as int, refreshed(prev, lvl, MINIMUM as nat, idx as int, false) as usize));
            }
        }
        proof {
            lemma_climb_done(b0, self.block@, lvl, MINIMUM as nat, f, false);
            lemma_node_size_total(lvl, MINIMUM as nat, 0);
            crate::bits::lemma_pow2_zero();
            lemma_descend(b0, lvl, MINIMUM as nat, 0, size as int);
            assert(descend(b0, lvl, MINIMUM as nat, 0, size as int) == f);
            assert forall|x: int| #[trigger] is_ancestor(x, f) implies b0[x] != 0 by {
                lemma_ancestor_lt(x, f);
                if x > 0 {
                    lemma_root_ancestor(x);
                }
                assert(x == 0 || is_ancestor(0, x));
                assert(b0[x] >= size);
            }
            lemma_use_takes(b0, self.block@, lvl, MINIMUM as nat, f);
            let ns = size_of_node(lvl, MINIMUM as nat, f);
            let x = f + 1 - pow2(depth(f));
            assert(offset == x * ns);
            vstd::arithmetic::div_mod::lemma_mod_multiples_basic(x, ns);
        }
        self.offset + offset
    }
}

} // verus!
