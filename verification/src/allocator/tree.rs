//! The implicit complete binary tree behind the array buddy allocator.
//!
//! Node `0` is the root and node `i` has children `2i+1` and `2i+2`. With
//! `lvl` the depth of the leaves, the tree has `2^(lvl+1) - 1` nodes; a node
//! at depth `d` covers `2^(lvl-d)` leaves of `min` bytes each. Each node
//! records in the block array the size of the largest free block inside it.
use vstd::prelude::*;

verus! {

use vstd::arithmetic::power2::{pow2, is_pow2, lemma_pow2_pos, lemma_pow2_adds};
use crate::bits::{log2, lemma_log2_unique, lemma_pow2_zero, lemma_pow2_succ, lemma_pow2_monotone, lemma_is_pow2_iff, lemma_is_pow2_pow2, lemma_pow2_divides};

pub open spec fn parent(i: int) -> int {
    (i - 1) / 2
}

/// Depth of node `i` (the root has depth 0).
pub open spec fn depth(i: int) -> nat
    decreases i,
{
    if i <= 0 {
        0
    } else {
        1 + depth((i - 1) / 2)
    }
}

/// `a` is a strict ancestor of `j`.
pub open spec fn is_ancestor(a: int, j: int) -> bool
    decreases j,
{
    if j <= 0 {
        false
    } else {
        (j - 1) / 2 == a || is_ancestor(a, (j - 1) / 2)
    }
}

/// Number of nodes of a tree whose leaves are at depth `lvl`.
pub open spec fn num_nodes(lvl: nat) -> int {
    pow2(lvl + 1) - 1
}

/// Nodes below this index have children.
pub open spec fn first_leaf(lvl: nat) -> int {
    pow2(lvl) - 1
}

/// Bytes covered by node `i`.
pub open spec fn size_of_node(lvl: nat, min: nat, i: int) -> int {
    (pow2((lvl - depth(i)) as nat) * min) as int
}

/// Byte offset of node `i` inside the arena.
pub open spec fn node_offset(lvl: nat, min: nat, i: int) -> int {
    (i + 1 - pow2(depth(i))) * size_of_node(lvl, min, i)
}

/// The leaf that holds the byte at `addr`.
pub open spec fn leaf_of(lvl: nat, min: nat, addr: int) -> int {
    addr / (min as int) + first_leaf(lvl)
}

pub open spec fn max_of(a: int, b: int) -> int {
    if a >= b {
        a
    } else {
        b
    }
}

/// The value a node takes from its children: its whole size when both
/// halves are free, the larger half otherwise.
pub open spec fn combine(l: int, r: int, ns: int) -> int {
    if l + r == ns {
        ns
    } else {
        max_of(l, r)
    }
}

/// Local well-formedness of node `i`.
pub open spec fn node_ok(b: Seq<usize>, lvl: nat, min: nat, i: int) -> bool {
    let ns = size_of_node(lvl, min, i);
    &&& b[i] <= ns
    &&& if i < first_leaf(lvl) {
        let l = b[2 * i + 1] as int;
        let r = b[2 * i + 2] as int;
        &&& (b[i] != 0 ==> b[i] == combine(l, r, ns))
        &&& (b[i] == 0 ==> (l == 0 && r == 0) || (l == ns / 2 && r == ns / 2))
    } else {
        b[i] == 0 || b[i] == ns
    }
}

/// Every node of the tree is well formed.
pub open spec fn tree_ok(b: Seq<usize>, lvl: nat, min: nat) -> bool {
    &&& b.len() >= num_nodes(lvl)
    &&& forall|i: int| 0 <= i < num_nodes(lvl) ==> #[trigger] node_ok(b, lvl, min, i)
}

/// The node that the buddy search for a block of `size` bytes reaches from `i`:
/// it goes left whenever the left child still holds such a block.
pub open spec fn descend(b: Seq<usize>, lvl: nat, min: nat, i: int, size: int) -> int
    decreases lvl - depth(i),
{
    if i < 0 || depth(i) >= lvl || size_of_node(lvl, min, i) <= size {
        i
    } else if b[2 * i + 1] >= size {
        descend(b, lvl, min, 2 * i + 1, size)
    } else {
        descend(b, lvl, min, 2 * i + 2, size)
    }
}

/// The first node with a zero entry on the way from `i` up to the root, or -1.
pub open spec fn first_zero(b: Seq<usize>, i: int) -> int
    decreases i,
{
    if i < 0 {
        -1
    } else if b[i] == 0 {
        i
    } else if i == 0 {
        -1
    } else {
        first_zero(b, (i - 1) / 2)
    }
}

/// `b2` is `b` after node `f` was handed out: `f` holds 0 and every ancestor
/// holds the larger of its children; all other entries are unchanged.
pub open spec fn marked_used(b: Seq<usize>, b2: Seq<usize>, f: int) -> bool {
    &&& b2.len() == b.len()
    &&& b2[f] == 0
    &&& forall|j: int|
        0 <= j < b.len() && j != f && !is_ancestor(j, f) ==> #[trigger] b2[j] == b[j]
    &&& forall|j: int|
        #![trigger is_ancestor(j, f)]
        is_ancestor(j, f) ==> b2[j] == max_of(b2[2 * j + 1] as int, b2[2 * j + 2] as int)
}

/// `b2` is `b` after node `f` of `ns` bytes was given back: `f` holds `ns`
/// and every ancestor is recombined from its children.
pub open spec fn marked_free(
    b: Seq<usize>,
    b2: Seq<usize>,
    lvl: nat,
    min: nat,
    f: int,
) -> bool {
    &&& b2.len() == b.len()
    &&& b2[f] == size_of_node(lvl, min, f)
    &&& forall|j: int|
        0 <= j < b.len() && j != f && !is_ancestor(j, f) ==> #[trigger] b2[j] == b[j]
    &&& forall|j: int|
        #![trigger is_ancestor(j, f)]
        is_ancestor(j, f) ==> b2[j] == combine(
            b2[2 * j + 1] as int,
            b2[2 * j + 2] as int,
            size_of_node(lvl, min, j),
        )
}

// ---------------------------------------------------------------------------
// Index arithmetic
// ---------------------------------------------------------------------------

pub proof fn lemma_depth_children(i: int)
    requires
        i >= 0,
    ensures
        depth(2 * i + 1) == depth(i) + 1,
        depth(2 * i + 2) == depth(i) + 1,
        (2 * i + 1 - 1) / 2 == i,
        (2 * i + 2 - 1) / 2 == i,
{
    assert((2 * i + 1 - 1) / 2 == i);
    assert((2 * i + 2 - 1) / 2 == i);
}

/// A node at depth `d` lies between `2^d - 1` and `2^(d+1) - 2`.
pub proof fn lemma_depth_bounds(i: int)
    requires
        i >= 0,
    ensures
        pow2(depth(i)) <= i + 1 < pow2(depth(i) + 1),
    decreases i,
{
    lemma_pow2_zero();
    lemma_pow2_succ(0);
    if i > 0 {
        let p = (i - 1) / 2;
        lemma_depth_bounds(p);
        lemma_pow2_succ(depth(p));
        lemma_pow2_succ(depth(p) + 1);
    }
}

/// The depth of a node is fixed by the power-of-two bracket it lies in.
pub proof fn lemma_depth_unique(i: int, d: nat)
    requires
        i >= 0,
        pow2(d) <= i + 1 < pow2(d + 1),
    ensures
        depth(i) == d,
{
    lemma_depth_bounds(i);
    let e = depth(i);
    if e < d {
        lemma_pow2_monotone(e + 1, d);
    } else if e > d {
        lemma_pow2_monotone(d + 1, e);
    }
}

/// Nodes before `first_leaf(lvl)` have depth below `lvl`; the others of the tree have depth `lvl`.
pub proof fn lemma_depth_range(lvl: nat, i: int)
    requires
        0 <= i < num_nodes(lvl),
    ensures
        i < first_leaf(lvl) <==> depth(i) < lvl,
        i >= first_leaf(lvl) ==> depth(i) == lvl,
        depth(i) <= lvl,
{
    lemma_depth_bounds(i);
    lemma_pow2_succ(lvl);
    if depth(i) > lvl {
        lemma_pow2_monotone(lvl + 1, depth(i));
    }
    if depth(i) < lvl {
        lemma_pow2_monotone(depth(i) + 1, lvl);
    }
    if depth(i) == lvl {
    }
}

/// Sizes halve from parent to child.
pub proof fn lemma_node_size_child(lvl: nat, min: nat, i: int)
    requires
        i >= 0,
        depth(i) < lvl,
    ensures
        size_of_node(lvl, min, 2 * i + 1) == size_of_node(lvl, min, i) / 2,
        size_of_node(lvl, min, 2 * i + 2) == size_of_node(lvl, min, i) / 2,
        size_of_node(lvl, min, i) == 2 * size_of_node(lvl, min, 2 * i + 1),
{
    lemma_depth_children(i);
    let k = (lvl - depth(i) - 1) as nat;
    lemma_pow2_succ(k);
    assert((lvl - depth(i)) as nat == k + 1);
    assert(pow2(k + 1) * min == 2 * (pow2(k) * min)) by (nonlinear_arith)
        requires
            pow2(k + 1) == 2 * pow2(k),
    ;
}

pub proof fn lemma_node_size_pos(lvl: nat, min: nat, i: int)
    requires
        min >= 1,
    ensures
        size_of_node(lvl, min, i) >= min,
        min >= 1,
{
    lemma_pow2_pos((lvl - depth(i)) as nat);
    assert(pow2((lvl - depth(i)) as nat) * min >= min) by (nonlinear_arith)
        requires
            pow2((lvl - depth(i)) as nat) >= 1,
            min >= 1,
    ;
}

pub proof fn lemma_node_size_pow2(lvl: nat, min: nat, i: int)
    requires
        is_pow2(min as int),
    ensures
        is_pow2(size_of_node(lvl, min, i)),
{
    lemma_is_pow2_iff(min as int);
    let m = log2(min);
    let k = (lvl - depth(i)) as nat;
    lemma_pow2_adds(k, m);
    lemma_is_pow2_pow2(k + m);
}

/// A node's size times the number of nodes at its depth is the arena size.
pub proof fn lemma_node_size_total(lvl: nat, min: nat, i: int)
    requires
        depth(i) <= lvl,
    ensures
        pow2(depth(i)) * size_of_node(lvl, min, i) == pow2(lvl) * min,
{
    let d = depth(i);
    let k = (lvl - d) as nat;
    lemma_pow2_adds(d, k);
    assert(d + k == lvl);
    assert(pow2(d) * (pow2(k) * min) == (pow2(d) * pow2(k)) * min) by (nonlinear_arith);
}

/// No node is larger than the whole arena.
pub proof fn lemma_node_size_le_total(lvl: nat, min: nat, i: int)
    requires
        depth(i) <= lvl,
    ensures
        size_of_node(lvl, min, i) <= pow2(lvl) * min,
{
    lemma_node_size_total(lvl, min, i);
    lemma_pow2_pos(depth(i));
    let ns = size_of_node(lvl, min, i);
    assert(ns <= pow2(depth(i)) * ns) by (nonlinear_arith)
        requires
            pow2(depth(i)) >= 1,
            ns >= 0,
    ;
}

/// Nodes one level deeper are half as large.
pub proof fn lemma_size_halves(lvl: nat, min: nat, i: int, j: int)
    requires
        depth(j) == depth(i) + 1,
        depth(j) <= lvl,
    ensures
        size_of_node(lvl, min, j) == size_of_node(lvl, min, i) / 2,
        size_of_node(lvl, min, i) == 2 * size_of_node(lvl, min, j),
{
    let k = (lvl - depth(j)) as nat;
    lemma_pow2_succ(k);
    assert((lvl - depth(i)) as nat == k + 1);
    assert(pow2(k + 1) * min == 2 * (pow2(k) * min)) by (nonlinear_arith)
        requires
            pow2(k + 1) == 2 * pow2(k),
    ;
}

/// Walking the nodes in index order, the depth grows by one exactly at the
/// nodes `2^d - 1`.
pub proof fn lemma_depth_step(i: int)
    requires
        i >= 1,
    ensures
        is_pow2(i + 1) ==> depth(i) == depth(i - 1) + 1,
        !is_pow2(i + 1) ==> depth(i) == depth(i - 1),
{
    lemma_depth_bounds(i);
    let d = depth(i);
    lemma_pow2_succ(d);
    lemma_pow2_zero();
    if i + 1 == pow2(d) {
        lemma_is_pow2_pow2(d);
        if d == 0 {
            assert(false);
        }
        lemma_pow2_succ((d - 1) as nat);
        lemma_depth_unique(i - 1, (d - 1) as nat);
    } else {
        lemma_depth_unique(i - 1, d);
        if is_pow2(i + 1) {
            lemma_is_pow2_iff(i + 1);
            crate::bits::lemma_log2_unique((i + 1) as nat, d);
        }
    }
}

/// A node's block lies inside the arena.
pub proof fn lemma_node_offset_range(lvl: nat, min: nat, i: int)
    requires
        i >= 0,
        depth(i) <= lvl,
        min >= 1,
    ensures
        0 <= node_offset(lvl, min, i),
        node_offset(lvl, min, i) + size_of_node(lvl, min, i) <= pow2(lvl) * min,
        (i + 1) * size_of_node(lvl, min, i) - pow2(lvl) * min == node_offset(lvl, min, i),
        (i + 1) * size_of_node(lvl, min, i) < 2 * (pow2(lvl) * min),
        (i + 1) * size_of_node(lvl, min, i) >= pow2(lvl) * min,
{
    lemma_depth_bounds(i);
    lemma_node_size_total(lvl, min, i);
    lemma_node_size_pos(lvl, min, i);
    let d = depth(i);
    lemma_pow2_succ(d);
    let ns = size_of_node(lvl, min, i);
    let t = pow2(lvl) * min;
    assert(0 <= node_offset(lvl, min, i)) by (nonlinear_arith)
        requires
            pow2(d) <= i + 1,
            ns >= 0,
            node_offset(lvl, min, i) == (i + 1 - pow2(d)) * ns,
    ;
    assert(node_offset(lvl, min, i) + ns <= t) by (nonlinear_arith)
        requires
            i + 1 < pow2(d + 1),
            pow2(d + 1) == 2 * pow2(d),
            pow2(d) * ns == t,
            ns >= 0,
            node_offset(lvl, min, i) == (i + 1 - pow2(d)) * ns,
    ;
    assert((i + 1) * ns - t == node_offset(lvl, min, i)) by (nonlinear_arith)
        requires
            pow2(d) * ns == t,
            node_offset(lvl, min, i) == (i + 1 - pow2(d)) * ns,
    ;
    assert((i + 1) * ns < 2 * t) by (nonlinear_arith)
        requires
            i + 1 < pow2(d + 1),
            pow2(d + 1) == 2 * pow2(d),
            pow2(d) * ns == t,
            ns >= 1,
    ;
    assert((i + 1) * ns >= t) by (nonlinear_arith)
        requires
            pow2(d) <= i + 1,
            pow2(d) * ns == t,
            ns >= 1,
    ;
}

// ---------------------------------------------------------------------------
// Ancestors
// ---------------------------------------------------------------------------

pub proof fn lemma_ancestor_lt(a: int, j: int)
    requires
        is_ancestor(a, j),
    ensures
        a < j,
        0 <= a,
    decreases j,
{
    if j > 0 && (j - 1) / 2 != a {
        lemma_ancestor_lt(a, (j - 1) / 2);
    }
}

pub proof fn lemma_root_ancestor(j: int)
    requires
        j > 0,
    ensures
        is_ancestor(0, j),
    decreases j,
{
    if (j - 1) / 2 > 0 {
        lemma_root_ancestor((j - 1) / 2);
    }
}

/// The ancestors of a node form a chain.
pub proof fn lemma_ancestor_chain(x: int, y: int, f: int)
    requires
        x == f || is_ancestor(x, f),
        y == f || is_ancestor(y, f),
    ensures
        x == y || is_ancestor(x, y) || is_ancestor(y, x),
    decreases f,
{
    if x != f && y != f {
        let p = (f - 1) / 2;
        lemma_ancestor_chain(x, y, p);
    }
}

/// Siblings are never both on the path from a node to the root.
pub proof fn lemma_one_child_on_path(a: int, f: int)
    requires
        a >= 0,
        (2 * a + 1 == f || is_ancestor(2 * a + 1, f)),
    ensures
        !(2 * a + 2 == f || is_ancestor(2 * a + 2, f)),
{
    if 2 * a + 2 == f || is_ancestor(2 * a + 2, f) {
        lemma_ancestor_chain(2 * a + 1, 2 * a + 2, f);
        if is_ancestor(2 * a + 1, 2 * a + 2) {
            assert((2 * a + 2 - 1) / 2 == a);
            if (2 * a + 2 - 1) / 2 != 2 * a + 1 {
                lemma_ancestor_lt(2 * a + 1, a);
            }
        }
        if is_ancestor(2 * a + 2, 2 * a + 1) {
            assert((2 * a + 1 - 1) / 2 == a);
            if (2 * a + 1 - 1) / 2 != 2 * a + 2 {
                lemma_ancestor_lt(2 * a + 2, a);
            }
        }
    }
}

pub proof fn lemma_one_child_on_path2(a: int, f: int)
    requires
        a >= 0,
        (2 * a + 2 == f || is_ancestor(2 * a + 2, f)),
    ensures
        !(2 * a + 1 == f || is_ancestor(2 * a + 1, f)),
{
    if 2 * a + 1 == f || is_ancestor(2 * a + 1, f) {
        lemma_one_child_on_path(a, f);
    }
}

/// A strict ancestor of `f` has a child on the path to `f`.
pub proof fn lemma_ancestor_child(a: int, f: int)
    requires
        is_ancestor(a, f),
    ensures
        (2 * a + 1 == f || is_ancestor(2 * a + 1, f)) || (2 * a + 2 == f || is_ancestor(2 * a + 2, f)),
    decreases f,
{
    let p = (f - 1) / 2;
    if p == a {
        assert(f == 2 * a + 1 || f == 2 * a + 2);
    } else {
        lemma_ancestor_child(a, p);
    }
}

// ---------------------------------------------------------------------------
// Facts about well-formed trees
// ---------------------------------------------------------------------------

/// A fully free inner node has two fully free children.
pub proof fn lemma_full_children(b: Seq<usize>, lvl: nat, min: nat, i: int)
    requires
        tree_ok(b, lvl, min),
        min >= 1,
        0 <= i < first_leaf(lvl),
        b[i] == size_of_node(lvl, min, i),
    ensures
        b[2 * i + 1] == size_of_node(lvl, min, 2 * i + 1),
        b[2 * i + 2] == size_of_node(lvl, min, 2 * i + 2),
{
    lemma_pow2_succ(lvl);
    lemma_depth_range(lvl, i);
    lemma_node_size_child(lvl, min, i);
    lemma_node_size_pos(lvl, min, i);
    assert(node_ok(b, lvl, min, i));
    assert(node_ok(b, lvl, min, 2 * i + 1));
    assert(node_ok(b, lvl, min, 2 * i + 2));
}

/// The buddy search from a node holding at least `size` ends on a fully free
/// node of exactly `size` bytes, and every node it passes holds at least `size`.
pub proof fn lemma_descend(b: Seq<usize>, lvl: nat, min: nat, i: int, size: int)
    requires
        tree_ok(b, lvl, min),
        is_pow2(min as int),
        is_pow2(size),
        min <= size,
        0 <= i < num_nodes(lvl),
        size <= size_of_node(lvl, min, i),
        size <= b[i],
    ensures
        ({
            let r = descend(b, lvl, min, i, size);
            &&& 0 <= r < num_nodes(lvl)
            &&& (r == i || is_ancestor(i, r))
            &&& size_of_node(lvl, min, r) == size
            &&& b[r] == size
            &&& depth(r) <= lvl
            &&& forall|a: int|
                #![trigger is_ancestor(a, r)]
                is_ancestor(a, r) && (a == i || is_ancestor(i, a)) ==> b[a] >= size
        }),
    decreases lvl - depth(i),
{
    lemma_pow2_succ(lvl);
    lemma_depth_range(lvl, i);
    lemma_is_pow2_iff(min as int);
    lemma_node_size_pos(lvl, min, i);
    assert(node_ok(b, lvl, min, i));
    let ns = size_of_node(lvl, min, i);
    if depth(i) >= lvl || ns <= size {
        if depth(i) >= lvl {
            assert(ns == pow2(0) * min);
            lemma_pow2_zero();
        }
        assert forall|a: int|
            #![trigger is_ancestor(a, i)]
            is_ancestor(a, i) && (a == i || is_ancestor(i, a)) implies b[a] >= size by {
            lemma_ancestor_lt(a, i);
            if is_ancestor(i, a) {
                lemma_ancestor_lt(i, a);
            }
        }
    } else {
        lemma_node_size_child(lvl, min, i);
        lemma_depth_children(i);
        lemma_node_size_pow2(lvl, min, i);
        lemma_pow2_divides(size, ns);
        assert(size <= ns / 2) by {
            let q = ns / size;
            assert(q * size == ns);
            assert(q >= 2) by (nonlinear_arith)
                requires
                    q * size == ns,
                    size < ns,
                    size >= 1,
            ;
            assert(2 * size <= q * size) by (nonlinear_arith)
                requires
                    q >= 2,
                    size >= 1,
            ;
        }
        assert(0 <= 2 * i + 2 < num_nodes(lvl)) by {
            lemma_depth_range(lvl, i);
        }
        assert(node_ok(b, lvl, min, 2 * i + 1));
        assert(node_ok(b, lvl, min, 2 * i + 2));
        let c = if b[2 * i + 1] >= size {
            2 * i + 1
        } else {
            2 * i + 2
        };
        assert(b[c] >= size);
        lemma_descend(b, lvl, min, c, size);
        let r = descend(b, lvl, min, c, size);
        assert(descend(b, lvl, min, i, size) == r);
        assert(is_ancestor(i, r)) by {
            if r != c {
                lemma_ancestor_trans_up(i, c, r);
            }
        }
        assert forall|a: int|
            #![trigger is_ancestor(a, r)]
            is_ancestor(a, r) && (a == i || is_ancestor(i, a)) implies b[a] >= size by {
            if a != i {
                if a == c || is_ancestor(c, a) {
                } else {
                    // a lies strictly between i and c: impossible
                    lemma_ancestor_chain(a, c, r);
                    if is_ancestor(a, c) {
                        assert((c - 1) / 2 == i);
                        if (c - 1) / 2 != a {
                            lemma_ancestor_lt(a, i);
                            lemma_ancestor_lt(i, a);
                        }
                    }
                }
            }
        }
    }
}

/// One step of the buddy search: a node larger than `size` that holds at
/// least `size` is an inner node, and the child the search picks holds at
/// least `size` too.
pub proof fn lemma_descend_step(b: Seq<usize>, lvl: nat, min: nat, i: int, size: int)
    requires
        tree_ok(b, lvl, min),
        is_pow2(min as int),
        is_pow2(size),
        min <= size,
        0 <= i < num_nodes(lvl),
        size < size_of_node(lvl, min, i),
        size <= b[i],
    ensures
        i < first_leaf(lvl),
        depth(i) < lvl,
        0 <= 2 * i + 2 < num_nodes(lvl),
        ({
            let c = if b[2 * i + 1] >= size {
                2 * i + 1
            } else {
                2 * i + 2
            };
            &&& b[c] >= size
            &&& descend(b, lvl, min, i, size) == descend(b, lvl, min, c, size)
            &&& size_of_node(lvl, min, c) == size_of_node(lvl, min, i) / 2
            &&& size <= size_of_node(lvl, min, c)
            &&& depth(c) == depth(i) + 1
        }),
{
    lemma_pow2_succ(lvl);
    lemma_depth_range(lvl, i);
    lemma_is_pow2_iff(min as int);
    lemma_node_size_pos(lvl, min, i);
    let ns = size_of_node(lvl, min, i);
    if depth(i) >= lvl {
        assert(ns == pow2(0) * min);
        lemma_pow2_zero();
    }
    lemma_node_size_child(lvl, min, i);
    lemma_depth_children(i);
    lemma_node_size_pow2(lvl, min, i);
    lemma_pow2_divides(size, ns);
    assert(size <= ns / 2) by {
        let q = ns / size;
        assert(q * size == ns);
        assert(q >= 2) by (nonlinear_arith)
            requires
                q * size == ns,
                size < ns,
                size >= 1,
        ;
        assert(2 * size <= q * size) by (nonlinear_arith)
            requires
                q >= 2,
                size >= 1,
        ;
    }
    assert(node_ok(b, lvl, min, i));
    assert(node_ok(b, lvl, min, 2 * i + 1));
    assert(node_ok(b, lvl, min, 2 * i + 2));
}

/// `i` is the parent of `c` and an ancestor-or-self of `c` ancestor-relates to `r`.
pub proof fn lemma_ancestor_trans_up(i: int, c: int, r: int)
    requires
        i >= 0,
        c == 2 * i + 1 || c == 2 * i + 2,
        is_ancestor(c, r),
    ensures
        is_ancestor(i, r),
    decreases r,
{
    let p = (r - 1) / 2;
    assert(r > 0);
    if p == c {
        assert((c - 1) / 2 == i);
        assert(is_ancestor(i, c));
    } else {
        lemma_ancestor_trans_up(i, c, p);
    }
}


// ---------------------------------------------------------------------------
// Refreshing the path from a changed node up to the root
// ---------------------------------------------------------------------------

/// The value an ancestor takes from its children after a node below it was
/// handed out (the larger child) or given back (the children combined).
pub open spec fn refreshed(b: Seq<usize>, lvl: nat, min: nat, j: int, freeing: bool) -> int {
    if freeing {
        combine(b[2 * j + 1] as int, b[2 * j + 2] as int, size_of_node(lvl, min, j))
    } else {
        max_of(b[2 * j + 1] as int, b[2 * j + 2] as int)
    }
}

/// State of the upward pass that started at `f` and has refreshed every
/// node up to and including `c`.
pub open spec fn climb_inv(
    b0: Seq<usize>,
    b: Seq<usize>,
    lvl: nat,
    min: nat,
    f: int,
    c: int,
    freeing: bool,
) -> bool {
    &&& 0 <= f < num_nodes(lvl)
    &&& 0 <= c < num_nodes(lvl)
    &&& (c == f || is_ancestor(c, f))
    &&& b.len() == b0.len()
    &&& b0.len() >= num_nodes(lvl)
    &&& b[f] == (if freeing {
        size_of_node(lvl, min, f)
    } else {
        0
    })
    &&& (!freeing ==> b[c] < size_of_node(lvl, min, c))
    &&& forall|j: int|
        0 <= j < b.len() && j != f && !is_ancestor(j, f) ==> #[trigger] b[j] == b0[j]
    &&& forall|j: int|
        #![trigger is_ancestor(j, f)]
        is_ancestor(j, f) && !is_ancestor(j, c) ==> b[j] == refreshed(b, lvl, min, j, freeing)
    &&& forall|j: int| #[trigger] is_ancestor(j, c) ==> b[j] == b0[j]
    &&& forall|j: int|
        0 <= j < num_nodes(lvl) && !is_ancestor(j, c) ==> #[trigger] node_ok(b, lvl, min, j)
}

/// The children of an ancestor of a tree node are tree nodes.
pub proof fn lemma_ancestor_children_in_tree(a: int, f: int, lvl: nat)
    requires
        is_ancestor(a, f),
        f < num_nodes(lvl),
    ensures
        0 <= a < first_leaf(lvl),
        2 * a + 2 < num_nodes(lvl),
{
    lemma_ancestor_child(a, f);
    lemma_ancestor_lt(a, f);
    if is_ancestor(2 * a + 1, f) {
        lemma_ancestor_lt(2 * a + 1, f);
    }
    if is_ancestor(2 * a + 2, f) {
        lemma_ancestor_lt(2 * a + 2, f);
    }
    lemma_pow2_succ(lvl);
}

proof fn lemma_not_ancestor_of_parent_child(j: int, p: int)
    requires
        j >= 0,
        2 * j + 1 == p || 2 * j + 2 == p,
    ensures
        is_ancestor(j, p),
{
    lemma_depth_children(j);
}

/// Setting node `f` starts the upward pass.
pub proof fn lemma_climb_start(
    b0: Seq<usize>,
    b: Seq<usize>,
    lvl: nat,
    min: nat,
    f: int,
    freeing: bool,
)
    requires
        tree_ok(b0, lvl, min),
        min >= 1,
        0 <= f < num_nodes(lvl),
        !freeing ==> b0[f] == size_of_node(lvl, min, f),
        freeing ==> b0[f] == 0,
        freeing && f < first_leaf(lvl) ==> b0[2 * f + 1] != 0 || b0[2 * f + 2] != 0,
        b == b0.update(
            f,
            (if freeing {
                size_of_node(lvl, min, f)
            } else {
                0
            }) as usize,
        ),
        0 <= size_of_node(lvl, min, f) <= usize::MAX,
    ensures
        climb_inv(b0, b, lvl, min, f, f, freeing),
{
    lemma_node_size_pos(lvl, min, f);
    lemma_depth_range(lvl, f);
    lemma_pow2_succ(lvl);
    if f < first_leaf(lvl) {
        lemma_node_size_child(lvl, min, f);
        assert(node_ok(b0, lvl, min, f));
        if !freeing {
            lemma_full_children(b0, lvl, min, f);
        }
    }
    assert forall|j: int| #[trigger] is_ancestor(j, f) implies b[j] == b0[j] by {
        lemma_ancestor_lt(j, f);
    }
    assert forall|j: int| 0 <= j < num_nodes(lvl) && !is_ancestor(j, f) implies #[trigger] node_ok(
        b,
        lvl,
        min,
        j,
    ) by {
        assert(node_ok(b0, lvl, min, j));
        if j == f {
            assert(b[f] <= size_of_node(lvl, min, f));
            if f < first_leaf(lvl) {
                assert(b[2 * f + 1] == b0[2 * f + 1]);
                assert(b[2 * f + 2] == b0[2 * f + 2]);
                let ns = size_of_node(lvl, min, f);
                assert(ns == 2 * size_of_node(lvl, min, 2 * f + 1));
            }
        }
        if j != f && j < first_leaf(lvl) {
            if 2 * j + 1 == f || 2 * j + 2 == f {
                lemma_not_ancestor_of_parent_child(j, f);
            }
        }
    }
}

/// Refreshing the parent of `c` extends the upward pass by one node.
pub proof fn lemma_climb_step(
    b0: Seq<usize>,
    b: Seq<usize>,
    b2: Seq<usize>,
    lvl: nat,
    min: nat,
    f: int,
    c: int,
    freeing: bool,
)
    requires
        climb_inv(b0, b, lvl, min, f, c, freeing),
        min >= 1,
        pow2(lvl) * min <= usize::MAX,
        c > 0,
        b2 == b.update((c - 1) / 2, refreshed(b, lvl, min, (c - 1) / 2, freeing) as usize),
    ensures
        climb_inv(b0, b2, lvl, min, f, (c - 1) / 2, freeing),
        0 <= refreshed(b, lvl, min, (c - 1) / 2, freeing) <= size_of_node(lvl, min, (c - 1) / 2),
        b[2 * ((c - 1) / 2) + 1] + b[2 * ((c - 1) / 2) + 2] <= size_of_node(lvl, min, (c - 1) / 2),
        (c - 1) / 2 < first_leaf(lvl),
{
    let p = (c - 1) / 2;
    assert(c == 2 * p + 1 || c == 2 * p + 2);
    lemma_depth_children(p);
    lemma_pow2_succ(lvl);
    assert(p < first_leaf(lvl));
    lemma_depth_range(lvl, p);
    lemma_node_size_child(lvl, min, p);
    lemma_node_size_pos(lvl, min, p);
    lemma_node_size_le_total(lvl, min, p);
    assert(!is_ancestor(2 * p + 2, c)) by {
        if is_ancestor(2 * p + 2, c) {
            lemma_ancestor_lt(2 * p + 2, c);
            if (c - 1) / 2 != 2 * p + 2 {
                lemma_ancestor_lt(2 * p + 2, p);
            }
        }
    }
    assert(!is_ancestor(2 * p + 1, c)) by {
        if is_ancestor(2 * p + 1, c) {
            lemma_ancestor_lt(2 * p + 1, c);
            if (c - 1) / 2 != 2 * p + 1 {
                lemma_ancestor_lt(2 * p + 1, p);
            }
        }
    }
    assert(node_ok(b, lvl, min, 2 * p + 1));
    assert(node_ok(b, lvl, min, 2 * p + 2));
    assert(is_ancestor(p, f)) by {
        if c != f {
            lemma_ancestor_trans_up(p, c, f);
        }
    }
    lemma_ancestor_lt(p, f);
    assert(b2[2 * p + 1] == b[2 * p + 1] && b2[2 * p + 2] == b[2 * p + 2]);
    assert(0 <= refreshed(b, lvl, min, p, freeing) <= size_of_node(lvl, min, p));
    assert(node_ok(b2, lvl, min, p));
    assert forall|j: int| #[trigger] is_ancestor(j, p) implies b2[j] == b0[j] by {
        lemma_ancestor_lt(j, p);
        assert(is_ancestor(j, c));
    }
    assert forall|j: int|
        #![trigger is_ancestor(j, f)]
        is_ancestor(j, f) && !is_ancestor(j, p) implies b2[j] == refreshed(
        b2,
        lvl,
        min,
        j,
        freeing,
    ) by {
        lemma_ancestor_lt(j, f);
        lemma_ancestor_children_in_tree(j, f, lvl);
        if j != p {
            assert(!is_ancestor(j, c));
            assert(b[j] == refreshed(b, lvl, min, j, freeing));
            if 2 * j + 1 == p || 2 * j + 2 == p {
                lemma_not_ancestor_of_parent_child(j, p);
            }
            assert(b2[2 * j + 1] == b[2 * j + 1]);
            assert(b2[2 * j + 2] == b[2 * j + 2]);
            assert(b2[j] == b[j]);
        } else {
            assert(b2[j] == refreshed(b, lvl, min, j, freeing));
        }
    }
    assert forall|j: int| 0 <= j < num_nodes(lvl) && !is_ancestor(j, p) implies #[trigger] node_ok(
        b2,
        lvl,
        min,
        j,
    ) by {
        if j != p {
            assert(!is_ancestor(j, c));
            assert(node_ok(b, lvl, min, j));
            if j < first_leaf(lvl) {
                if 2 * j + 1 == p || 2 * j + 2 == p {
                    lemma_not_ancestor_of_parent_child(j, p);
                }
            }
        }
    }
}

/// When the upward pass reaches the root the tree is well formed again.
pub proof fn lemma_climb_done(
    b0: Seq<usize>,
    b: Seq<usize>,
    lvl: nat,
    min: nat,
    f: int,
    freeing: bool,
)
    requires
        climb_inv(b0, b, lvl, min, f, 0, freeing),
    ensures
        tree_ok(b, lvl, min),
        !freeing ==> marked_used(b0, b, f),
        freeing ==> marked_free(b0, b, lvl, min, f),
{
    assert forall|j: int| 0 <= j < num_nodes(lvl) implies #[trigger] node_ok(b, lvl, min, j) by {
        assert(!is_ancestor(j, 0));
    }
    assert forall|j: int| #![trigger is_ancestor(j, f)] is_ancestor(j, f) implies b[j]
        == refreshed(b, lvl, min, j, freeing) by {
        assert(!is_ancestor(j, 0));
    }
}

// ---------------------------------------------------------------------------
// Giving back a block right after it was handed out
// ---------------------------------------------------------------------------

/// The leftmost node `k` levels below `f`.
pub open spec fn leftmost(f: int, k: nat) -> int
    decreases k,
{
    if k == 0 {
        f
    } else {
        2 * leftmost(f, (k - 1) as nat) + 1
    }
}

proof fn lemma_leftmost(f: int, k: nat)
    requires
        f >= 0,
    ensures
        leftmost(f, k) == (f + 1) * pow2(k) - 1,
        depth(leftmost(f, k)) == depth(f) + k,
        leftmost(f, k) >= f,
        k > 0 ==> leftmost(f, k) > f,
        k > 0 ==> (leftmost(f, k) - 1) / 2 == leftmost(f, (k - 1) as nat),
    decreases k,
{
    lemma_pow2_zero();
    if k > 0 {
        let k1 = (k - 1) as nat;
        lemma_leftmost(f, k1);
        lemma_pow2_succ(k1);
        lemma_depth_children(leftmost(f, k1));
        assert(2 * ((f + 1) * pow2(k1) - 1) + 1 == (f + 1) * pow2(k) - 1) by (nonlinear_arith)
            requires
                pow2(k) == 2 * pow2(k1),
        ;
    }
}

/// The byte offset of a node leads back to its leftmost leaf.
proof fn lemma_leaf_of_offset(lvl: nat, min: nat, f: int)
    requires
        f >= 0,
        depth(f) <= lvl,
        min >= 1,
    ensures
        leaf_of(lvl, min, node_offset(lvl, min, f)) == leftmost(f, (lvl - depth(f)) as nat),
{
    let d = depth(f);
    let k = (lvl - d) as nat;
    lemma_leftmost(f, k);
    lemma_pow2_adds(d, k);
    assert(d + k == lvl);
    let x = f + 1 - pow2(d);
    let pk = pow2(k) as int;
    assert(node_offset(lvl, min, f) == (x * pk) * min) by (nonlinear_arith)
        requires
            node_offset(lvl, min, f) == x * (pk * min),
    ;
    vstd::arithmetic::div_mod::lemma_div_multiples_vanish(x * pk, min as int);
    assert(min * (x * pk) == (x * pk) * min) by (nonlinear_arith);
    assert(node_offset(lvl, min, f) / (min as int) == x * pk);
    assert(x * pk + pow2(lvl) - 1 == (f + 1) * pk - 1) by (nonlinear_arith)
        requires
            x == f + 1 - pow2(d),
            pow2(lvl) == pow2(d) * pk,
    ;
}

/// Climbing from any node on the left spine below a freshly handed-out node
/// reaches that node first.
proof fn lemma_climb_finds(
    b: Seq<usize>,
    b1: Seq<usize>,
    lvl: nat,
    min: nat,
    f: int,
    j: nat,
)
    requires
        tree_ok(b, lvl, min),
        min >= 1,
        0 <= f < num_nodes(lvl),
        depth(f) + j <= lvl,
        b[f] == size_of_node(lvl, min, f),
        marked_used(b, b1, f),
    ensures
        first_zero(b1, leftmost(f, j)) == f,
        0 <= leftmost(f, j) < num_nodes(lvl),
        b[leftmost(f, j)] == size_of_node(lvl, min, leftmost(f, j)),
    decreases j,
{
    lemma_leftmost(f, j);
    let x = leftmost(f, j);
    lemma_depth_bounds(x);
    lemma_pow2_monotone(depth(x) + 1, lvl + 1);
    if j > 0 {
        let j1 = (j - 1) as nat;
        lemma_climb_finds(b, b1, lvl, min, f, j1);
        let y = leftmost(f, j1);
        lemma_leftmost(f, j1);
        lemma_depth_range(lvl, y);
        lemma_full_children(b, lvl, min, y);
        lemma_node_size_pos(lvl, min, x);
        if is_ancestor(x, f) {
            lemma_ancestor_lt(x, f);
        }
        assert(b1[x] == b[x]);
    }
}

/// Freeing the block that an allocation just handed out finds exactly that
/// node and restores every entry of the tree.
pub proof fn lemma_free_restores(
    b: Seq<usize>,
    b1: Seq<usize>,
    b2: Seq<usize>,
    lvl: nat,
    min: nat,
    size: int,
)
    requires
        tree_ok(b, lvl, min),
        is_pow2(min as int),
        is_pow2(size),
        min <= size,
        size <= size_of_node(lvl, min, 0),
        size <= b[0],
        marked_used(b, b1, descend(b, lvl, min, 0, size)),
        marked_free(b1, b2, lvl, min, descend(b, lvl, min, 0, size)),
    ensures
        b2 == b,
{
    let f = descend(b, lvl, min, 0, size);
    lemma_pow2_succ(lvl);
    lemma_pow2_zero();
    lemma_is_pow2_iff(min as int);
    lemma_descend(b, lvl, min, 0, size);
    assert forall|a: int| is_ancestor(a, f) implies #[trigger] b2[a] == b[a] by {
        lemma_restore_ancestor(b, b1, b2, lvl, min, size, f, a);
    }
    assert forall|j: int| 0 <= j < b.len() implies #[trigger] b2[j] == b[j] by {
        if j != f && !is_ancestor(j, f) {
            assert(b1[j] == b[j]);
        }
    }
    assert(b2 =~= b);
}

proof fn lemma_restore_ancestor(
    b: Seq<usize>,
    b1: Seq<usize>,
    b2: Seq<usize>,
    lvl: nat,
    min: nat,
    size: int,
    f: int,
    a: int,
)
    requires
        tree_ok(b, lvl, min),
        min >= 1,
        0 <= f < num_nodes(lvl),
        b[f] == size,
        size_of_node(lvl, min, f) == size,
        size >= 1,
        forall|x: int|
            #![trigger is_ancestor(x, f)]
            is_ancestor(x, f) && (x == 0 || is_ancestor(0, x)) ==> b[x] >= size,
        marked_used(b, b1, f),
        marked_free(b1, b2, lvl, min, f),
        is_ancestor(a, f),
    ensures
        b2[a] == b[a],
    decreases f - a,
{
    lemma_ancestor_lt(a, f);
    lemma_ancestor_children_in_tree(a, f, lvl);
    lemma_ancestor_child(a, f);
    if a > 0 {
        lemma_root_ancestor(a);
    }
    assert(b[a] >= size);
    assert(node_ok(b, lvl, min, a));
    let l = 2 * a + 1;
    let r = 2 * a + 2;
    if l == f || is_ancestor(l, f) {
        lemma_one_child_on_path(a, f);
        if l != f {
            lemma_ancestor_lt(l, f);
            lemma_restore_ancestor(b, b1, b2, lvl, min, size, f, l);
        }
        assert(b1[r] == b[r]);
    } else {
        lemma_one_child_on_path2(a, f);
        if r != f {
            lemma_ancestor_lt(r, f);
            lemma_restore_ancestor(b, b1, b2, lvl, min, size, f, r);
        }
        assert(b1[l] == b[l]);
    }
}

/// Freeing at the offset an allocation just returned climbs to that node.
pub proof fn lemma_free_finds_allocated(
    b: Seq<usize>,
    b1: Seq<usize>,
    lvl: nat,
    min: nat,
    size: int,
)
    requires
        tree_ok(b, lvl, min),
        is_pow2(min as int),
        is_pow2(size),
        min <= size,
        size <= size_of_node(lvl, min, 0),
        size <= b[0],
        marked_used(b, b1, descend(b, lvl, min, 0, size)),
    ensures
        ({
            let f = descend(b, lvl, min, 0, size);
            &&& first_zero(b1, leaf_of(lvl, min, node_offset(lvl, min, f))) == f
            &&& size_of_node(lvl, min, f) == size
        }),
{
    let f = descend(b, lvl, min, 0, size);
    lemma_pow2_succ(lvl);
    lemma_is_pow2_iff(min as int);
    lemma_descend(b, lvl, min, 0, size);
    lemma_leaf_of_offset(lvl, min, f);
    lemma_climb_finds(b, b1, lvl, min, f, (lvl - depth(f)) as nat);
}

// ---------------------------------------------------------------------------
// Where blocks lie
// ---------------------------------------------------------------------------

/// Every node below a fully free node is fully free.
pub proof fn lemma_full_below(b: Seq<usize>, lvl: nat, min: nat, f: int, u: int)
    requires
        tree_ok(b, lvl, min),
        min >= 1,
        0 <= f,
        b[f] == size_of_node(lvl, min, f),
        is_ancestor(f, u),
        u < num_nodes(lvl),
    ensures
        b[u] == size_of_node(lvl, min, u),
    decreases u,
{
    lemma_ancestor_lt(f, u);
    let p = (u - 1) / 2;
    lemma_pow2_succ(lvl);
    assert(0 <= p < first_leaf(lvl));
    if p == f {
        lemma_full_children(b, lvl, min, f);
    } else {
        assert(is_ancestor(f, p));
        lemma_full_below(b, lvl, min, f, p);
        lemma_full_children(b, lvl, min, p);
    }
}

/// The left child's block starts where its parent's does, the right
/// child's in the middle of it.
pub proof fn lemma_child_offset(lvl: nat, min: nat, p: int)
    requires
        p >= 0,
        depth(p) < lvl,
    ensures
        node_offset(lvl, min, 2 * p + 1) == node_offset(lvl, min, p),
        node_offset(lvl, min, 2 * p + 2) == node_offset(lvl, min, p) + size_of_node(lvl, min, 2 * p + 1),
{
    lemma_depth_children(p);
    lemma_node_size_child(lvl, min, p);
    let d = depth(p);
    lemma_pow2_succ(d);
    let ns = size_of_node(lvl, min, p);
    let nc = size_of_node(lvl, min, 2 * p + 1);
    assert((2 * p + 2 - pow2(d + 1)) * nc == (p + 1 - pow2(d)) * ns) by (nonlinear_arith)
        requires
            pow2(d + 1) == 2 * pow2(d),
            ns == 2 * nc,
    ;
    assert((2 * p + 3 - pow2(d + 1)) * nc == (p + 1 - pow2(d)) * ns + nc) by (nonlinear_arith)
        requires
            pow2(d + 1) == 2 * pow2(d),
            ns == 2 * nc,
    ;
}

/// The block of a node lies inside the block of each of its ancestors.
pub proof fn lemma_block_inside(lvl: nat, min: nat, a: int, u: int)
    requires
        is_ancestor(a, u),
        depth(u) <= lvl,
    ensures
        node_offset(lvl, min, a) <= node_offset(lvl, min, u),
        node_offset(lvl, min, u) + size_of_node(lvl, min, u) <= node_offset(lvl, min, a)
            + size_of_node(lvl, min, a),
    decreases u,
{
    lemma_ancestor_lt(a, u);
    let p = (u - 1) / 2;
    assert(u == 2 * p + 1 || u == 2 * p + 2);
    lemma_depth_children(p);
    assert(depth(p) < lvl);
    lemma_child_offset(lvl, min, p);
    lemma_node_size_child(lvl, min, p);
    if p != a {
        assert(is_ancestor(a, p));
        lemma_block_inside(lvl, min, a, p);
    }
}

/// Distinct nodes at the same depth hold disjoint blocks.
pub proof fn lemma_same_depth_apart(lvl: nat, min: nat, x: int, y: int)
    requires
        0 <= x < y,
        depth(x) == depth(y),
        depth(y) <= lvl,
    ensures
        node_offset(lvl, min, x) + size_of_node(lvl, min, x) <= node_offset(lvl, min, y),
{
    let d = depth(x);
    let ns = size_of_node(lvl, min, x);
    assert(size_of_node(lvl, min, y) == ns);
    assert((x + 1 - pow2(d)) * ns + ns <= (y + 1 - pow2(d)) * ns) by (nonlinear_arith)
        requires
            x < y,
            ns >= 0,
    ;
}

/// The node on the way from `u` to the root that lies at depth `d`.
pub open spec fn ancestor_at(u: int, d: nat) -> int
    decreases u,
{
    if u <= 0 || depth(u) <= d {
        u
    } else {
        ancestor_at((u - 1) / 2, d)
    }
}

pub proof fn lemma_ancestor_at(u: int, d: nat)
    requires
        u >= 0,
        d <= depth(u),
    ensures
        depth(ancestor_at(u, d)) == d,
        ancestor_at(u, d) == u || is_ancestor(ancestor_at(u, d), u),
        ancestor_at(u, d) >= 0,
    decreases u,
{
    if u > 0 && depth(u) > d {
        let p = (u - 1) / 2;
        lemma_ancestor_at(p, d);
        let a = ancestor_at(p, d);
        if a != p {
            assert(is_ancestor(a, p));
        }
    }
}

/// Two nodes of which neither lies below the other hold disjoint blocks.
pub proof fn lemma_unrelated_apart(lvl: nat, min: nat, x: int, y: int)
    requires
        0 <= x,
        0 <= y,
        depth(x) <= lvl,
        depth(y) <= lvl,
        x != y,
        !is_ancestor(x, y),
        !is_ancestor(y, x),
    ensures
        node_offset(lvl, min, x) + size_of_node(lvl, min, x) <= node_offset(lvl, min, y)
            || node_offset(lvl, min, y) + size_of_node(lvl, min, y) <= node_offset(lvl, min, x),
{
    if depth(x) <= depth(y) {
        lemma_ancestor_at(y, depth(x));
        let a = ancestor_at(y, depth(x));
        if a < x {
            lemma_same_depth_apart(lvl, min, a, x);
        } else {
            lemma_same_depth_apart(lvl, min, x, a);
        }
        if a != y {
            lemma_block_inside(lvl, min, a, y);
        }
    } else {
        lemma_ancestor_at(x, depth(y));
        let a = ancestor_at(x, depth(y));
        if a < y {
            lemma_same_depth_apart(lvl, min, a, y);
        } else {
            lemma_same_depth_apart(lvl, min, y, a);
        }
        if a != x {
            lemma_block_inside(lvl, min, a, x);
        }
    }
}

} // verus!
