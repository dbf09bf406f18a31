//! A buddy allocator with one free list per block size `2^level`.
use vstd::prelude::*;

verus! {

use vstd::arithmetic::power2::{pow2, is_pow2};
use crate::bits::{log2, tz, trailing_zeros, next_power_of_two, lemma_is_pow2_iff, lemma_pow2_succ, lemma_npow2, lemma_shl_one};
use crate::layout::{Layout, request_size};
use crate::os::config::BUDDY_ALLOCATOR_LEVEL;
use super::linked_list::{LinkedList, pre_of};

/// The free lists after the head block `a` of list `big` was split down to
/// list `k`: list `big` lost its head, every list strictly between `k` and
/// `big` gained the upper half `a + 2^j`, and list `k` gained both halves.
pub open spec fn split_upto(ls: Seq<Seq<usize>>, big: int, k: int, a: int) -> Seq<Seq<usize>> {
    Seq::new(
        ls.len(),
        |j: int|
            if k >= big {
                ls[j]
            } else if j == big {
                ls[j].drop_first()
            } else if k < j < big {
                seq![(a + pow2(j as nat)) as usize] + ls[j]
            } else if j == k {
                seq![a as usize, (a + pow2(k as nat)) as usize] + ls[j]
            } else {
                ls[j]
            },
    )
}

/// The free lists after serving a block of list `level` from the head `a`
/// of the non-empty list `i >= level`: list `i` loses its head and each
/// list `j` with `level <= j < i` gains the block `a + 2^j`.
pub open spec fn taken(ls: Seq<Seq<usize>>, level: int, i: int) -> Seq<Seq<usize>> {
    let a = ls[i][0] as int;
    Seq::new(
        ls.len(),
        |j: int|
            if j == i {
                ls[j].drop_first()
            } else if level <= j < i {
                seq![(a + pow2(j as nat)) as usize] + ls[j]
            } else {
                ls[j]
            },
    )
}

/// The smallest level from `i` on whose list is non-empty, or -1.
pub open spec fn first_nonempty(ls: Seq<Seq<usize>>, i: int) -> int
    decreases ls.len() - i,
{
    if i < 0 || i >= ls.len() {
        -1
    } else if ls[i].len() > 0 {
        i
    } else {
        first_nonempty(ls, i + 1)
    }
}

/// Address of the buddy of the block at `now` on level `i`.
pub open spec fn buddy_of(now: usize, i: int) -> usize {
    now ^ (1usize << (i as usize))
}

/// The free lists after the block at `now` is given back at level `i`:
/// while its buddy is found (as the successor of some block) the buddy is
/// unlinked and the pair merged one level up; the first level without the
/// buddy gets the merged block at its head.
pub open spec fn merged(ls: Seq<Seq<usize>>, i: int, now: usize) -> Seq<Seq<usize>>
    decreases ls.len() - i,
{
    if i < 0 || i >= ls.len() {
        ls
    } else {
        let buddy = buddy_of(now, i);
        let p = pre_of(ls[i], buddy as int);
        if p >= 0 {
            merged(
                ls.update(i, ls[i].remove(p + 1)),
                i + 1,
                if now <= buddy {
                    now
                } else {
                    buddy
                },
            )
        } else {
            ls.update(i, seq![now] + ls[i])
        }
    }
}

/// Every buddy the merge finds has a block after its predecessor to unlink
/// (the null address 0 matching past the last block would not).
pub open spec fn merge_ok(ls: Seq<Seq<usize>>, i: int, now: usize) -> bool
    decreases ls.len() - i,
{
    if i < 0 || i >= ls.len() {
        true
    } else {
        let buddy = buddy_of(now, i);
        let p = pre_of(ls[i], buddy as int);
        if p >= 0 {
            &&& p + 1 < ls[i].len()
            &&& merge_ok(
                ls.update(i, ls[i].remove(p + 1)),
                i + 1,
                if now <= buddy {
                    now
                } else {
                    buddy
                },
            )
        } else {
            true
        }
    }
}

/// The free lists after the range `[begin, begin + size)` is cut into
/// blocks: each step takes the block of the size's lowest set bit.
pub open spec fn added(ls: Seq<Seq<usize>>, begin: int, size: nat) -> Seq<Seq<usize>>
    decreases size,
{
    if size == 0 {
        ls
    } else {
        let level = tz(size) as int;
        let b = pow2(tz(size));
        if b == 0 || b > size {
            ls
        } else {
            added(ls.update(level, seq![begin as usize] + ls[level]), begin + b, (size - b) as nat)
        }
    }
}

/// `x` rounded up to a multiple of `m`.
pub open spec fn align_up(x: int, m: int) -> int {
    ((x + m - 1) / m) * m
}

/// `x` rounded down to a multiple of `m`.
pub open spec fn align_down(x: int, m: int) -> int {
    (x / m) * m
}

/// Total bytes held by the free lists below level `n`.
pub open spec fn free_bytes(ls: Seq<Seq<usize>>, n: int) -> int
    decreases n,
{
    if n <= 0 {
        0
    } else {
        free_bytes(ls, n - 1) + ls[n - 1].len() * pow2((n - 1) as nat)
    }
}

/// Whether giving a block back at level `i` merges all the way past the top
/// level, so that no list receives the merged block.
pub open spec fn merge_runs_off(ls: Seq<Seq<usize>>, i: int, now: usize) -> bool
    decreases ls.len() - i,
{
    if i < 0 || i >= ls.len() {
        true
    } else {
        let buddy = buddy_of(now, i);
        let p = pre_of(ls[i], buddy as int);
        if p >= 0 {
            merge_runs_off(
                ls.update(i, ls[i].remove(p + 1)),
                i + 1,
                if now <= buddy {
                    now
                } else {
                    buddy
                },
            )
        } else {
            false
        }
    }
}

proof fn lemma_free_bytes_update(ls: Seq<Seq<usize>>, n: int, k: int, l: Seq<usize>)
    requires
        0 <= k < ls.len(),
        0 <= n <= ls.len(),
    ensures
        free_bytes(ls.update(k, l), n) == free_bytes(ls, n) + (if k < n {
            (l.len() - ls[k].len()) * pow2(k as nat)
        } else {
            0
        }),
    decreases n,
{
    if n > 0 {
        lemma_free_bytes_update(ls, n - 1, k, l);
        if k == n - 1 {
            assert((l.len() - ls[k].len()) * pow2(k as nat) == l.len() * pow2(k as nat) - ls[k].len()
                * pow2(k as nat)) by (nonlinear_arith);
        }
    }
}

proof fn lemma_free_bytes_taken(ls: Seq<Seq<usize>>, level: int, i: int, n: int)
    requires
        0 <= level <= i < ls.len(),
        ls[i].len() > 0,
        0 <= n <= ls.len(),
    ensures
        free_bytes(taken(ls, level, i), n) == free_bytes(ls, n) + (if n <= level {
            0
        } else if n <= i {
            pow2(n as nat) - pow2(level as nat)
        } else {
            -pow2(level as nat)
        }),
    decreases n,
{
    crate::bits::lemma_pow2_zero();
    if n > 0 {
        lemma_free_bytes_taken(ls, level, i, n - 1);
        let t = taken(ls, level, i);
        let j = n - 1;
        lemma_pow2_succ(j as nat);
        if j == i {
            assert(t[j].len() == ls[j].len() - 1);
            assert(t[j].len() * pow2(j as nat) == ls[j].len() * pow2(j as nat) - pow2(j as nat))
                by (nonlinear_arith)
                requires
                    t[j].len() == ls[j].len() - 1,
            ;
        } else if level <= j < i {
            assert(t[j].len() == ls[j].len() + 1);
            assert(t[j].len() * pow2(j as nat) == ls[j].len() * pow2(j as nat) + pow2(j as nat))
                by (nonlinear_arith)
                requires
                    t[j].len() == ls[j].len() + 1,
            ;
        } else {
            assert(t[j] == ls[j]);
        }
    }
}

proof fn lemma_free_bytes_added(ls: Seq<Seq<usize>>, begin: int, size: nat)
    requires
        size < pow2(ls.len() as nat),
    ensures
        free_bytes(added(ls, begin, size), ls.len() as int) == free_bytes(ls, ls.len() as int) + size,
        added(ls, begin, size).len() == ls.len(),
    decreases size,
{
    if size > 0 {
        let level = tz(size);
        let b = pow2(level);
        crate::bits::lemma_tz_bounds(size);
        vstd::arithmetic::power2::lemma_pow2_pos(level);
        crate::bits::lemma_log2_bounds(size);
        if log2(size) >= ls.len() {
            crate::bits::lemma_pow2_monotone(ls.len() as nat, log2(size));
        }
        let ls2 = ls.update(level as int, seq![begin as usize] + ls[level as int]);
        lemma_free_bytes_update(ls, ls.len() as int, level as int, seq![begin as usize] + ls[level as int]);
        lemma_free_bytes_added(ls2, begin + b, (size - b) as nat);
    }
}

proof fn lemma_free_bytes_merged(ls: Seq<Seq<usize>>, i: int, now: usize)
    requires
        0 <= i <= ls.len(),
        merge_ok(ls, i, now),
    ensures
        merged(ls, i, now).len() == ls.len(),
        free_bytes(merged(ls, i, now), ls.len() as int) == free_bytes(ls, ls.len() as int) + pow2(
            i as nat,
        ) - (if merge_runs_off(ls, i, now) {
            pow2(ls.len() as nat)
        } else {
            0
        }),
    decreases ls.len() - i,
{
    if i < ls.len() {
        let buddy = buddy_of(now, i);
        let p = pre_of(ls[i], buddy as int);
        lemma_pow2_succ(i as nat);
        if p >= 0 {
            let ls2 = ls.update(i, ls[i].remove(p + 1));
            lemma_free_bytes_update(ls, ls.len() as int, i, ls[i].remove(p + 1));
            assert(ls[i].remove(p + 1).len() - ls[i].len() == -1);
            assert((ls[i].remove(p + 1).len() - ls[i].len()) * pow2(i as nat) == -pow2(i as nat))
                by (nonlinear_arith)
                requires
                    ls[i].remove(p + 1).len() - ls[i].len() == -1,
            ;
            assert(free_bytes(ls2, ls.len() as int) == free_bytes(ls, ls.len() as int) - pow2(i as nat));
            lemma_free_bytes_merged(
                ls2,
                i + 1,
                if now <= buddy {
                    now
                } else {
                    buddy
                },
            );
        } else {
            lemma_free_bytes_update(ls, ls.len() as int, i, seq![now] + ls[i]);
            assert((seq![now] + ls[i]).len() - ls[i].len() == 1);
            assert(((seq![now] + ls[i]).len() - ls[i].len()) * pow2(i as nat) == pow2(i as nat))
                by (nonlinear_arith)
                requires
                    (seq![now] + ls[i]).len() - ls[i].len() == 1,
            ;
        }
    }
}

/// The allocator state: one free list per level, the bytes added, the
/// smallest block size, and the bytes handed out and asked for.
pub struct BuddyAllocatorInner {
    free_lists: Vec<LinkedList>,
    total: usize,
    minimum: usize,
    used: usize,
    need: usize,
}

impl BuddyAllocatorInner {
    /// The free lists, level by level.
    pub closed spec fn lists(&self) -> Seq<Seq<usize>> {
        Seq::new(self.free_lists@.len(), |i: int| self.free_lists@[i]@)
    }

    /// Bytes held by all free lists.
    pub open spec fn free_total(&self) -> int {
        free_bytes(self.lists(), BUDDY_ALLOCATOR_LEVEL as int)
    }

    pub closed spec fn total_bytes(&self) -> int {
        self.total as int
    }

    pub closed spec fn min_block(&self) -> int {
        self.minimum as int
    }

    /// Bytes reserved by allocations, rounded up to block sizes.
    pub closed spec fn used_bytes(&self) -> int {
        self.used as int
    }

    /// Bytes asked for by allocations.
    pub closed spec fn requested_bytes(&self) -> int {
        self.need as int
    }

    pub closed spec fn wf(&self) -> bool {
        &&& self.free_lists@.len() == BUDDY_ALLOCATOR_LEVEL
        &&& is_pow2(self.minimum as int)
    }

    /// Creates an allocator with no memory; blocks are at least a machine
    /// word and at least `minimum` bytes.
    pub fn new(minimum: usize) -> (s: Self)
        requires
            is_pow2(minimum as int),
        ensures
            s.wf(),
            s.total_bytes() == 0,
            s.used_bytes() == 0,
            s.requested_bytes() == 0,
            s.min_block() == if minimum < usize::BITS / 8 {
                (usize::BITS / 8) as int
            } else {
                minimum as int
            },
            forall|i: int| 0 <= i < BUDDY_ALLOCATOR_LEVEL ==> #[trigger] s.lists()[i].len() == 0,
            s.lists().len() == BUDDY_ALLOCATOR_LEVEL,
    {
        let word = (usize::BITS / 8) as usize;
        let mut free_lists: Vec<LinkedList> = Vec::new();
        let mut i: usize = 0;
        while i < BUDDY_ALLOCATOR_LEVEL
            invariant
                i <= BUDDY_ALLOCATOR_LEVEL,
                free_lists@.len() == i,
                forall|j: int| 0 <= j < i ==> #[trigger] free_lists@[j]@.len() == 0,
            decreases BUDDY_ALLOCATOR_LEVEL - i,
        {
            free_lists.push(LinkedList::new());
            i = i + 1;
        }
        proof {
            reveal(is_pow2);
            assert(usize::BITS == 32 || usize::BITS == 64);
            assert(is_pow2(1));
            assert(is_pow2(2));
            assert(is_pow2(4));
            assert(is_pow2(8));
        }
        BuddyAllocatorInner {
            free_lists,
            total: 0,
            minimum: if minimum < word {
                word
            } else {
                minimum
            },
            used: 0,
            need: 0,
        }
    }
}


impl BuddyAllocatorInner {
    proof fn lemma_lists_update(old_v: Seq<LinkedList>, new_v: Seq<LinkedList>, k: int)
        requires
            0 <= k < old_v.len(),
            new_v.len() == old_v.len(),
            forall|j: int| 0 <= j < old_v.len() && j != k ==> #[trigger] new_v[j] == old_v[j],
        ensures
            Seq::new(new_v.len(), |i: int| new_v[i]@) =~= Seq::new(old_v.len(), |i: int| old_v[i]@).update(
                k,
                new_v[k]@,
            ),
    {
    }

    /// Splits the head block of list `big` down to list `small`: each level
    /// on the way keeps the upper half, list `small` gets both halves.
    fn split(&mut self, big: usize, small: usize)
        requires
            old(self).wf(),
            small <= big < BUDDY_ALLOCATOR_LEVEL,
            old(self).lists()[big as int].len() > 0,
            big > small ==> old(self).lists()[big as int][0] + pow2((big - 1) as nat) <= usize::MAX,
        ensures
            final(self).wf(),
            final(self).lists() == split_upto(
                old(self).lists(),
                big as int,
                small as int,
                old(self).lists()[big as int][0] as int,
            ),
            final(self).total == old(self).total,
            final(self).minimum == old(self).minimum,
            final(self).used == old(self).used,
            final(self).need == old(self).need,
    {
        let ghost ls0 = self.lists();
        let ghost a = ls0[big as int][0] as int;
        let mut i = big;
        proof {
            assert(split_upto(ls0, big as int, big as int, a) =~= ls0);
        }
        while i > small
            invariant
                small <= i <= big < BUDDY_ALLOCATOR_LEVEL,
                self.wf(),
                ls0 == old(self).lists(),
                a == ls0[big as int][0],
                ls0[big as int].len() > 0,
                big > small ==> a + pow2((big - 1) as nat) <= usize::MAX,
                self.lists() =~~= split_upto(ls0, big as int, i as int, a),
                self.total == old(self).total,
                self.minimum == old(self).minimum,
                self.used == old(self).used,
                self.need == old(self).need,
            decreases i,
        {
            i = i - 1;
            let ghost prev = self.free_lists@;
            proof {
                assert(self.free_lists@[i + 1]@ == split_upto(ls0, big as int, (i + 1) as int, a)[i + 1]);
            }
            let now = self.free_lists[i + 1].pop_front();
            proof {
                Self::lemma_lists_update(prev, self.free_lists@, i + 1);
            }
            let now = now.unwrap();
            proof {
                lemma_shl_one(i);
                crate::bits::lemma_pow2_monotone(i as nat, (big - 1) as nat);
                assert(now == a);
            }
            let ghost prev2 = self.free_lists@;
            self.free_lists[i].push_front(now + (1usize << i));
            proof {
                Self::lemma_lists_update(prev2, self.free_lists@, i as int);
            }
            let ghost prev3 = self.free_lists@;
            self.free_lists[i].push_front(now);
            proof {
                Self::lemma_lists_update(prev3, self.free_lists@, i as int);
                let target = split_upto(ls0, big as int, i as int, a);
                let before = split_upto(ls0, big as int, (i + 1) as int, a);
                assert forall|j: int| 0 <= j < BUDDY_ALLOCATOR_LEVEL implies #[trigger] self.lists()[j]
                    =~= target[j] by {
                    if j == i + 1 {
                        assert(self.lists()[j] == before[j].drop_first());
                    } else if j == i {
                        assert(self.lists()[j] == seq![now] + (seq![(now + pow2(i as nat)) as usize] + before[j]));
                    } else {
                        assert(self.lists()[j] == before[j]);
                    }
                }
                assert(self.lists() =~~= target);
            }
        }
        proof {
            assert(self.lists() =~~= split_upto(ls0, big as int, small as int, a));
        }
    }

    /// Gives the block at `ptr` back at level `begin`, merging it with its
    /// buddy as long as the buddy is found free.
    fn merge(&mut self, begin: usize, ptr: usize)
        requires
            old(self).wf(),
            merge_ok(old(self).lists(), begin as int, ptr),
        ensures
            final(self).wf(),
            final(self).lists() == merged(old(self).lists(), begin as int, ptr),
            final(self).total == old(self).total,
            final(self).minimum == old(self).minimum,
            final(self).used == old(self).used,
            final(self).need == old(self).need,
    {
        let ghost target = merged(old(self).lists(), begin as int, ptr);
        let mut now = ptr;
        let mut i = begin;
        let n = self.free_lists.len();
        while i < n
            invariant_except_break
                merged(self.lists(), i as int, now) == target,
                merge_ok(self.lists(), i as int, now),
            invariant
                self.wf(),
                n == BUDDY_ALLOCATOR_LEVEL,
                self.total == old(self).total,
                self.minimum == old(self).minimum,
                self.used == old(self).used,
                self.need == old(self).need,
            ensures
                self.lists() == target,
            decreases n - i,
        {
            let buddy = now ^ (1usize << i);
            let ghost ls = self.lists();
            let ghost prev = self.free_lists@;
            proof {
                assert(ls[i as int] == self.free_lists@[i as int]@);
                assert(buddy == buddy_of(now, i as int));
            }
            let node = self.free_lists[i].find_pre(buddy);
            proof {
                assert(merge_ok(ls, i as int, now));
                assert(i < ls.len());
                let pp = pre_of(ls[i as int], buddy as int);
                assert(pp >= 0 ==> pp + 1 < ls[i as int].len());
            }
            match node {
                Some(p) => {
                    self.free_lists[i].pop(p);
                    proof {
                        Self::lemma_lists_update(prev, self.free_lists@, i as int);
                        assert(self.lists() =~~= ls.update(i as int, ls[i as int].remove(p + 1)));
                    }
                    now = if now <= buddy {
                        now
                    } else {
                        buddy
                    };
                },
                None => {
                    self.free_lists[i].push_front(now);
                    proof {
                        Self::lemma_lists_update(prev, self.free_lists@, i as int);
                        assert(self.lists() =~~= ls.update(i as int, seq![now] + ls[i as int]));
                    }
                    break ;
                },
            }
            i = i + 1;
        }
        proof {
            if begin >= BUDDY_ALLOCATOR_LEVEL {
                assert(self.lists() == old(self).lists());
            }
        }
    }

    fn calc_size(&self, layout: &Layout) -> (r: usize)
        requires
            self.wf(),
            layout.valid(),
        ensures
            r == request_size(*layout, self.minimum as int),
            is_pow2(r as int),
            r >= self.minimum,
    {
        let a = if layout.align >= self.minimum {
            layout.align
        } else {
            self.minimum
        };
        let p = next_power_of_two(layout.size);
        if a >= p {
            a
        } else {
            p
        }
    }

    /// The level whose blocks serve `layout`.
    pub open spec fn level_for(&self, layout: Layout) -> int {
        log2(request_size(layout, self.min_block()) as nat) as int
    }

    /// Serves `layout` from the first non-empty list at or above its level,
    /// splitting the block found down to the level. Returns the block's
    /// address, or the null address 0 when no list can serve it.
    pub fn allocate(&mut self, layout: Layout) -> (r: usize)
        requires
            old(self).wf(),
            layout.valid(),
            ({
                let level = old(self).level_for(layout);
                let i = first_nonempty(old(self).lists(), level);
                i >= 0 ==> {
                    &&& old(self).used_bytes() + request_size(layout, old(self).min_block()) <= usize::MAX
                    &&& old(self).requested_bytes() + layout.size <= usize::MAX
                    &&& i > level ==> old(self).lists()[i][0] + pow2((i - 1) as nat) <= usize::MAX
                }
            }),
        ensures
            final(self).wf(),
            final(self).total_bytes() == old(self).total_bytes(),
            final(self).min_block() == old(self).min_block(),
            ({
                let level = old(self).level_for(layout);
                let i = first_nonempty(old(self).lists(), level);
                &&& i < 0 ==> r == 0 && final(self).lists() == old(self).lists()
                    && final(self).used_bytes() == old(self).used_bytes()
                    && final(self).requested_bytes() == old(self).requested_bytes()
                &&& i >= 0 ==> r == old(self).lists()[i][0] && final(self).lists() == taken(
                    old(self).lists(),
                    level,
                    i,
                ) && final(self).used_bytes() == old(self).used_bytes() + request_size(
                    layout,
                    old(self).min_block(),
                ) && final(self).requested_bytes() == old(self).requested_bytes() + layout.size
                    && final(self).free_total() == old(self).free_total() - request_size(
                    layout,
                    old(self).min_block(),
                )
            }),
    {
        let size = self.calc_size(&layout);
        proof {
            lemma_is_pow2_iff(size as int);
        }
        let level = trailing_zeros(size) as usize;
        let ghost ls0 = self.lists();
        proof {
            crate::bits::lemma_tz_pow2(log2(size as nat));
            assert(level == log2(size as nat));
            assert(pow2(level as nat) == size);
        }
        let n = self.free_lists.len();
        let mut i = level;
        while i < n
            invariant
                self.wf(),
                *self == *old(self),
                n == BUDDY_ALLOCATOR_LEVEL,
                level <= i,
                level == old(self).level_for(layout),
                first_nonempty(ls0, level as int) == first_nonempty(ls0, i as int),
                ls0 == self.lists(),
                pow2(level as nat) == size,
                size == request_size(layout, old(self).min_block()),
                first_nonempty(ls0, level as int) >= 0 ==> {
                    &&& old(self).used_bytes() + size <= usize::MAX
                    &&& old(self).requested_bytes() + layout.size <= usize::MAX
                    &&& first_nonempty(ls0, level as int) > level ==> ls0[first_nonempty(ls0, level as int)][0]
                        + pow2((first_nonempty(ls0, level as int) - 1) as nat) <= usize::MAX
                },
            decreases n - i,
        {
            proof {
                assert(ls0[i as int] == self.free_lists@[i as int]@);
            }
            if !self.free_lists[i].is_empty() {
                proof {
                    assert(first_nonempty(ls0, i as int) == i);
                }
                self.split(i, level);
                let ghost ls1 = self.lists();
                let ghost prev = self.free_lists@;
                proof {
                    assert(ls1[level as int] == self.free_lists@[level as int]@);
                    assert(ls1[level as int].len() > 0);
                }
                let res = self.free_lists[level].pop_front();
                proof {
                    Self::lemma_lists_update(prev, self.free_lists@, level as int);
                    let a = ls0[i as int][0];
                    if i > level {
                        assert(ls1[level as int] == seq![a, (a + pow2(level as nat)) as usize] + ls0[level as int]);
                    }
                    let target = taken(ls0, level as int, i as int);
                    assert forall|j: int| 0 <= j < BUDDY_ALLOCATOR_LEVEL implies #[trigger] self.lists()[j]
                        =~= target[j] by {
                        if j == level {
                            assert(self.lists()[j] == ls1[j].drop_first());
                        }
                    }
                    assert(self.lists() =~~= target);
                }
                let res = res.unwrap();
                self.used = self.used + size;
                self.need = self.need + layout.size;
                proof {
                    lemma_free_bytes_taken(ls0, level as int, i as int, BUDDY_ALLOCATOR_LEVEL as int);
                    crate::bits::lemma_is_pow2_iff(size as int);
                    assert(pow2(level as nat) == size);
                    assert(self.lists() == taken(ls0, level as int, i as int));
                    assert(self.free_total() == free_bytes(taken(ls0, level as int, i as int), BUDDY_ALLOCATOR_LEVEL as int));
                }
                return res;
            }
            i = i + 1;
        }
        0
    }

    /// Whether serving `layout` now keeps within the machine's integers: the
    /// counters have room, and a block split from a higher level does not
    /// run past the end of the address space.
    pub fn can_serve(&self, layout: Layout) -> (r: bool)
        requires
            self.wf(),
            layout.valid(),
        ensures
            r == ({
                let level = self.level_for(layout);
                let i = first_nonempty(self.lists(), level);
                i >= 0 ==> {
                    &&& self.used_bytes() + request_size(layout, self.min_block()) <= usize::MAX
                    &&& self.requested_bytes() + layout.size <= usize::MAX
                    &&& i > level ==> self.lists()[i][0] + pow2((i - 1) as nat) <= usize::MAX
                }
            }),
    {
        let size = self.calc_size(&layout);
        proof {
            lemma_is_pow2_iff(size as int);
        }
        let level = trailing_zeros(size) as usize;
        let ghost ls0 = self.lists();
        proof {
            crate::bits::lemma_tz_pow2(log2(size as nat));
            assert(level == log2(size as nat));
        }
        let n = self.free_lists.len();
        let mut i = level;
        while i < n
            invariant
                self.wf(),
                n == BUDDY_ALLOCATOR_LEVEL,
                level <= i,
                level == self.level_for(layout),
                ls0 == self.lists(),
                first_nonempty(ls0, level as int) == first_nonempty(ls0, i as int),
                size == request_size(layout, self.min_block()),
            decreases n - i,
        {
            proof {
                assert(ls0[i as int] == self.free_lists@[i as int]@);
            }
            match self.free_lists[i].front() {
                Some(head) => {
                    proof {
                        assert(first_nonempty(ls0, i as int) == i);
                    }
                    let fits = if i > level {
                        proof {
                            crate::bits::lemma_shl_one((i - 1) as usize);
                        }
                        head <= usize::MAX - (1usize << (i - 1))
                    } else {
                        true
                    };
                    return self.used <= usize::MAX - size && self.need <= usize::MAX - layout.size && fits;
                },
                None => {},
            }
            i = i + 1;
        }
        true
    }

    /// Whether the block at `ptr` can be given back with `layout`: no level
    /// of the merge finds its buddy as the successor of the last block.
    pub fn can_release(&self, ptr: usize, layout: Layout) -> (r: bool)
        requires
            self.wf(),
            layout.valid(),
        ensures
            r == merge_ok(self.lists(), self.level_for(layout), ptr),
    {
        let size = self.calc_size(&layout);
        proof {
            lemma_is_pow2_iff(size as int);
        }
        let level = trailing_zeros(size) as usize;
        proof {
            crate::bits::lemma_tz_pow2(log2(size as nat));
            assert(level == self.level_for(layout));
        }
        let ghost ls0 = self.lists();
        let ghost mut ls = self.lists();
        let mut now = ptr;
        let mut i = level;
        let n = self.free_lists.len();
        while i < n
            invariant
                self.wf(),
                n == BUDDY_ALLOCATOR_LEVEL,
                ls0 == self.lists(),
                level == self.level_for(layout),
                ls.len() == ls0.len(),
                forall|k: int| i <= k < ls.len() ==> ls[k] == ls0[k],
                merge_ok(ls0, level as int, ptr) == merge_ok(ls, i as int, now),
            decreases n - i,
        {
            let buddy = now ^ (1usize << i);
            proof {
                assert(ls0[i as int] == self.free_lists@[i as int]@);
                assert(buddy == buddy_of(now, i as int));
            }
            match self.free_lists[i].find_pre(buddy) {
                Some(p) => {
                    if p >= self.free_lists[i].nodes_len() - 1 {
                        proof {
                            assert(ls[i as int] == ls0[i as int]);
                            assert(!merge_ok(ls, i as int, now));
                        }
                        return false;
                    }
                    let next = if now <= buddy {
                        now
                    } else {
                        buddy
                    };
                    proof {
                        assert(ls[i as int] == ls0[i as int]);
                        let ls2 = ls.update(i as int, ls[i as int].remove(p + 1));
                        assert(merge_ok(ls, i as int, now) == merge_ok(ls2, i + 1, next));
                        ls = ls2;
                    }
                    now = next;
                },
                None => {
                    proof {
                        assert(ls[i as int] == ls0[i as int]);
                        assert(merge_ok(ls, i as int, now));
                    }
                    return true;
                },
            }
            i = i + 1;
        }
        true
    }

    /// Gives back the block at `ptr` that served `layout`.
    pub fn dealloc(&mut self, ptr: usize, layout: Layout)
        requires
            old(self).wf(),
            layout.valid(),
            merge_ok(old(self).lists(), old(self).level_for(layout), ptr),
        ensures
            final(self).wf(),
            final(self).lists() == merged(old(self).lists(), old(self).level_for(layout), ptr),
            old(self).level_for(layout) < BUDDY_ALLOCATOR_LEVEL ==> final(self).free_total()
                == old(self).free_total() + request_size(layout, old(self).min_block()) - (
            if merge_runs_off(old(self).lists(), old(self).level_for(layout), ptr) {
                pow2(BUDDY_ALLOCATOR_LEVEL as nat)
            } else {
                0
            }),
            final(self).total_bytes() == old(self).total_bytes(),
            final(self).min_block() == old(self).min_block(),
            final(self).used_bytes() == old(self).used_bytes(),
            final(self).requested_bytes() == old(self).requested_bytes(),
    {
        let size = self.calc_size(&layout);
        proof {
            lemma_is_pow2_iff(size as int);
        }
        let level = trailing_zeros(size) as usize;
        proof {
            crate::bits::lemma_tz_pow2(log2(size as nat));
        }
        self.merge(level, ptr);
        proof {
            if level < BUDDY_ALLOCATOR_LEVEL {
                lemma_free_bytes_merged(old(self).lists(), level as int, ptr);
            }
        }
    }

    /// `x & (!m + 1)` clears the bits below the power of two `m`.
    proof fn lemma_mask_round(x: usize, m: usize)
        requires
            is_pow2(m as int),
        ensures
            !m + 1 <= usize::MAX,
            x & (!m + 1) as usize == align_down(x as int, m as int),
    {
        lemma_is_pow2_iff(m as int);
        let k = log2(m as nat);
        crate::bits::lemma_log2_bounds(m as nat);
        vstd::arithmetic::power2::lemma2_to64();
        vstd::arithmetic::power2::lemma2_to64_rest();
        assert(usize::BITS == 32 || usize::BITS == 64);
        if k >= usize::BITS {
            crate::bits::lemma_pow2_monotone(usize::BITS as nat, k);
            assert(false);
        }
        let y = (m - 1) as usize;
        assert(!m + 1 == !y) by (bit_vector)
            requires
                m >= 1usize,
                y == (m - 1) as usize,
        ;
        let mm = (!m + 1) as usize;
        assert(mm == !y);
        assert(x & !y == x - (x & y)) by (bit_vector);
        vstd::bits::lemma_usize_low_bits_mask_is_mod(x, k);
        assert(vstd::bits::low_bits_mask(k) as usize == y);
        assert(pow2(k) as usize == m);
        assert(x & y == x % m);
        vstd::arithmetic::div_mod::lemma_fundamental_div_mod(x as int, m as int);
    }

    /// Whether `add(begin, end)` fits: the range shrunk to multiples of the
    /// minimum block is not reversed, the total has room for it, and it is
    /// smaller than the block of the level above the last.
    pub fn can_add(&self, begin: usize, end: usize) -> (r: bool)
        requires
            self.wf(),
        ensures
            r == (begin + self.min_block() <= usize::MAX && ({
                let lo = align_up(begin as int, self.min_block());
                let hi = align_down(end as int, self.min_block());
                &&& lo <= hi
                &&& self.total_bytes() + (hi - lo) <= usize::MAX
                &&& hi - lo < pow2(BUDDY_ALLOCATOR_LEVEL as nat)
            })),
    {
        if begin > usize::MAX - self.minimum {
            return false;
        }
        proof {
            lemma_is_pow2_iff(self.minimum as int);
            Self::lemma_mask_round((begin + self.minimum - 1) as usize, self.minimum);
            Self::lemma_mask_round(end, self.minimum);
            vstd::arithmetic::power2::lemma2_to64();
        }
        let lo = (begin + self.minimum - 1) & (!self.minimum + 1);
        let hi = end & (!self.minimum + 1);
        if lo > hi {
            return false;
        }
        let size = hi - lo;
        self.total <= usize::MAX - size && (size as u64) < 0x1_0000_0000u64
    }

    /// Adds the memory `[begin, end)`, shrunk to multiples of the minimum
    /// block size, to the free lists.
    pub fn add(&mut self, begin: usize, end: usize)
        requires
            old(self).wf(),
            begin + old(self).min_block() <= usize::MAX,
            ({
                let lo = align_up(begin as int, old(self).min_block());
                let hi = align_down(end as int, old(self).min_block());
                &&& lo <= hi
                &&& old(self).total_bytes() + (hi - lo) <= usize::MAX
                &&& hi - lo < pow2(BUDDY_ALLOCATOR_LEVEL as nat)
            }),
        ensures
            final(self).wf(),
            ({
                let lo = align_up(begin as int, old(self).min_block());
                let hi = align_down(end as int, old(self).min_block());
                &&& final(self).total_bytes() == old(self).total_bytes() + (hi - lo)
                &&& final(self).lists() == added(old(self).lists(), lo, (hi - lo) as nat)
                &&& final(self).free_total() == old(self).free_total() + (hi - lo)
            }),
            final(self).min_block() == old(self).min_block(),
            final(self).used_bytes() == old(self).used_bytes(),
            final(self).requested_bytes() == old(self).requested_bytes(),
    {
        proof {
            lemma_is_pow2_iff(self.minimum as int);
            Self::lemma_mask_round((begin + self.minimum - 1) as usize, self.minimum);
            Self::lemma_mask_round(end, self.minimum);
        }
        let mut begin = (begin + self.minimum - 1) & (!self.minimum + 1);
        let end = end & (!self.minimum + 1);
        let mut size = end - begin;
        let ghost lo = begin as int;
        self.total = self.total + size;
        let ghost target = added(self.lists(), begin as int, size as nat);
        let ghost total1 = self.total;
        while size > 0
            invariant
                self.wf(),
                added(self.lists(), begin as int, size as nat) == target,
                begin + size == end,
                size < pow2(BUDDY_ALLOCATOR_LEVEL as nat),
                self.total == total1,
                self.minimum == old(self).minimum,
                self.used == old(self).used,
                self.need == old(self).need,
            decreases size,
        {
            let level = trailing_zeros(size) as usize;
            proof {
                crate::bits::lemma_tz_bounds(size as nat);
                crate::bits::lemma_log2_bounds(size as nat);
                if log2(size as nat) >= 32 {
                    crate::bits::lemma_pow2_monotone(32, log2(size as nat));
                }
                lemma_shl_one(level);
            }
            let ghost prev = self.free_lists@;
            let ghost ls = self.lists();
            self.free_lists[level].push_front(begin);
            proof {
                Self::lemma_lists_update(prev, self.free_lists@, level as int);
                assert(self.lists() =~~= ls.update(level as int, seq![begin] + ls[level as int]));
                let b = pow2(tz(size as nat));
                vstd::arithmetic::power2::lemma_pow2_pos(tz(size as nat));
                crate::bits::lemma_tz_bounds(size as nat);
                assert(b > 0 && b <= size);
                assert(added(ls, begin as int, size as nat) == added(
                    ls.update(level as int, seq![begin] + ls[level as int]),
                    begin + b,
                    (size - b) as nat,
                ));
            }
            size = size - (1usize << level);
            begin = begin + (1usize << level);
        }
        proof {
            lemma_free_bytes_added(old(self).lists(), lo, (end - lo) as nat);
        }
    }
}

/// Freeing a block that was just allocated gives its bytes back to the free
/// lists, unless the merge climbs past the last level.
pub proof fn lemma_free_bytes_restored(
    s0: BuddyAllocatorInner,
    s1: BuddyAllocatorInner,
    s2: BuddyAllocatorInner,
    layout: Layout,
    ptr: usize,
)
    requires
        s1.free_total() == s0.free_total() - request_size(layout, s0.min_block()),
        s1.min_block() == s0.min_block(),
        s1.level_for(layout) < BUDDY_ALLOCATOR_LEVEL,
        s2.free_total() == s1.free_total() + request_size(layout, s1.min_block()) - (if merge_runs_off(
            s1.lists(),
            s1.level_for(layout),
            ptr,
        ) {
            pow2(BUDDY_ALLOCATOR_LEVEL as nat)
        } else {
            0
        }),
        !merge_runs_off(s1.lists(), s1.level_for(layout), ptr),
    ensures
        s2.free_total() == s0.free_total(),
{
}

} // verus!
