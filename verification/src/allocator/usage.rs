//! The bytes still free inside a node of the buddy tree, and how handing a
//! node out or giving it back changes them.
use vstd::prelude::*;

verus! {

use crate::bits::lemma_pow2_succ;
use super::tree::{
    depth,
    first_leaf,
    first_zero,
    is_ancestor,
    marked_free,
    marked_used,
    max_of,
    combine,
    node_ok,
    num_nodes,
    size_of_node,
    tree_ok,
    lemma_ancestor_child,
    lemma_ancestor_children_in_tree,
    lemma_ancestor_lt,
    lemma_ancestor_trans_up,
    lemma_depth_children,
    lemma_depth_range,
    lemma_full_below,
    lemma_full_children,
    lemma_node_size_child,
    lemma_node_size_pos,
    lemma_one_child_on_path,
    lemma_one_child_on_path2,
    lemma_root_ancestor,
};

/// Bytes free inside node `i`: all of it when its entry is its whole size,
/// none when its entry is 0 or it is a leaf, and otherwise what its two
/// halves hold.
pub open spec fn free_in(b: Seq<usize>, lvl: nat, min: nat, i: int) -> int
    decreases lvl - depth(i),
{
    if i < 0 {
        0
    } else if b[i] == size_of_node(lvl, min, i) {
        size_of_node(lvl, min, i)
    } else if b[i] == 0 || depth(i) >= lvl {
        0
    } else {
        proof {
            lemma_depth_children(i);
        }
        free_in(b, lvl, min, 2 * i + 1) + free_in(b, lvl, min, 2 * i + 2)
    }
}

/// `a` splits its free bytes between its halves: either its entry is not 0,
/// or both halves hold 0.
pub open spec fn splits(b: Seq<usize>, a: int) -> bool {
    b[a] != 0 || (b[2 * a + 1] == 0 && b[2 * a + 2] == 0)
}

/// Ancestry is transitive.
pub proof fn lemma_ancestor_trans(x: int, y: int, z: int)
    requires
        is_ancestor(x, y),
        is_ancestor(y, z),
    ensures
        is_ancestor(x, z),
    decreases z,
{
    let p = (z - 1) / 2;
    if p != y {
        lemma_ancestor_trans(x, y, p);
    }
}

/// The free bytes of an inner node that splits are those of its halves.
pub proof fn lemma_split(b: Seq<usize>, lvl: nat, min: nat, a: int)
    requires
        tree_ok(b, lvl, min),
        min >= 1,
        0 <= a < first_leaf(lvl),
        splits(b, a),
    ensures
        free_in(b, lvl, min, a) == free_in(b, lvl, min, 2 * a + 1) + free_in(b, lvl, min, 2 * a + 2),
{
    lemma_pow2_succ(lvl);
    lemma_depth_range(lvl, a);
    lemma_depth_children(a);
    lemma_node_size_child(lvl, min, a);
    lemma_node_size_pos(lvl, min, a);
    lemma_node_size_pos(lvl, min, 2 * a + 1);
    assert(node_ok(b, lvl, min, a));
    let ns = size_of_node(lvl, min, a);
    if b[a] == ns {
        lemma_full_children(b, lvl, min, a);
    }
}

/// The free bytes of a node lie between 0 and its size.
pub proof fn lemma_free_in_bounds(b: Seq<usize>, lvl: nat, min: nat, i: int)
    requires
        tree_ok(b, lvl, min),
        min >= 1,
        0 <= i < num_nodes(lvl),
    ensures
        0 <= free_in(b, lvl, min, i) <= size_of_node(lvl, min, i),
    decreases lvl - depth(i),
{
    lemma_pow2_succ(lvl);
    lemma_depth_range(lvl, i);
    lemma_node_size_pos(lvl, min, i);
    let ns = size_of_node(lvl, min, i);
    if b[i] != ns && b[i] != 0 && depth(i) < lvl {
        lemma_depth_children(i);
        lemma_node_size_child(lvl, min, i);
        lemma_free_in_bounds(b, lvl, min, 2 * i + 1);
        lemma_free_in_bounds(b, lvl, min, 2 * i + 2);
    }
}

/// The free bytes of a node depend only on the entries of its subtree.
pub proof fn lemma_same_subtree(b: Seq<usize>, b2: Seq<usize>, lvl: nat, min: nat, i: int)
    requires
        0 <= i < num_nodes(lvl),
        b2[i] == b[i],
        forall|j: int| is_ancestor(i, j) && j < num_nodes(lvl) ==> #[trigger] b2[j] == b[j],
    ensures
        free_in(b2, lvl, min, i) == free_in(b, lvl, min, i),
    decreases lvl - depth(i),
{
    lemma_pow2_succ(lvl);
    lemma_depth_range(lvl, i);
    if depth(i) < lvl {
        lemma_depth_children(i);
        let c1 = 2 * i + 1;
        let c2 = 2 * i + 2;
        assert(is_ancestor(i, c1) && is_ancestor(i, c2));
        assert forall|j: int| is_ancestor(c1, j) && j < num_nodes(lvl) implies #[trigger] b2[j] == b[j] by {
            lemma_ancestor_trans_up(i, c1, j);
        }
        assert forall|j: int| is_ancestor(c2, j) && j < num_nodes(lvl) implies #[trigger] b2[j] == b[j] by {
            lemma_ancestor_trans_up(i, c2, j);
        }
        lemma_same_subtree(b, b2, lvl, min, c1);
        lemma_same_subtree(b, b2, lvl, min, c2);
    }
}

/// When only node `f` and its ancestors change, and every ancestor splits
/// before and after, the free bytes of `f` and of each ancestor `a` change
/// by the same amount.
pub proof fn lemma_path_change(b: Seq<usize>, b2: Seq<usize>, lvl: nat, min: nat, f: int, a: int)
    requires
        tree_ok(b, lvl, min),
        tree_ok(b2, lvl, min),
        min >= 1,
        0 <= f < num_nodes(lvl),
        a == f || is_ancestor(a, f),
        forall|j: int|
            0 <= j < num_nodes(lvl) && j != f && !is_ancestor(j, f) ==> #[trigger] b2[j] == b[j],
        forall|x: int| #[trigger] is_ancestor(x, f) ==> splits(b, x) && splits(b2, x),
    ensures
        free_in(b2, lvl, min, a) - free_in(b2, lvl, min, f) == free_in(b, lvl, min, a) - free_in(b, lvl, min, f),
    decreases f - a,
{
    if a != f {
        lemma_ancestor_lt(a, f);
        lemma_ancestor_children_in_tree(a, f, lvl);
        lemma_ancestor_child(a, f);
        let (c, d) = if 2 * a + 1 == f || is_ancestor(2 * a + 1, f) {
            lemma_one_child_on_path(a, f);
            (2 * a + 1, 2 * a + 2)
        } else {
            lemma_one_child_on_path2(a, f);
            (2 * a + 2, 2 * a + 1)
        };
        if c != f {
            lemma_ancestor_lt(c, f);
        }
        lemma_path_change(b, b2, lvl, min, f, c);
        assert forall|j: int| is_ancestor(d, j) && j < num_nodes(lvl) implies #[trigger] b2[j] == b[j] by {
            assert(0 <= j) by {
                lemma_ancestor_lt(d, j);
            }
            if j == f {
                assert(is_ancestor(d, f));
            }
            if is_ancestor(j, f) {
                lemma_ancestor_trans(d, j, f);
            }
        }
        assert(b2[d] == b[d]);
        lemma_same_subtree(b, b2, lvl, min, d);
        lemma_split(b, lvl, min, a);
        lemma_split(b2, lvl, min, a);
    }
}

/// The node `first_zero` finds from `i` holds 0 and lies on the way from
/// `i` up to the root.
pub proof fn lemma_first_zero(b: Seq<usize>, i: int)
    requires
        first_zero(b, i) >= 0,
    ensures
        b[first_zero(b, i)] == 0,
        first_zero(b, i) == i || is_ancestor(first_zero(b, i), i),
    decreases i,
{
    if i >= 0 && b[i] != 0 && i != 0 {
        let p = (i - 1) / 2;
        lemma_first_zero(b, p);
        if first_zero(b, p) != p {
            lemma_ancestor_trans(first_zero(b, p), p, i);
        }
    }
}

/// A node holding 0 below an ancestor `x` whose entry is 0 means both of
/// `x`'s halves hold 0: `x` splits.
pub proof fn lemma_zero_below_splits(b: Seq<usize>, lvl: nat, min: nat, f: int, x: int)
    requires
        tree_ok(b, lvl, min),
        min >= 1,
        0 <= f < num_nodes(lvl),
        b[f] == 0,
        is_ancestor(x, f),
    ensures
        splits(b, x),
{
    lemma_ancestor_children_in_tree(x, f, lvl);
    lemma_pow2_succ(lvl);
    assert(node_ok(b, lvl, min, x));
    lemma_depth_range(lvl, x);
    lemma_node_size_child(lvl, min, x);
    if b[x] == 0 && !(b[2 * x + 1] == 0 && b[2 * x + 2] == 0) {
        lemma_ancestor_child(x, f);
        let c = if 2 * x + 1 == f || is_ancestor(2 * x + 1, f) {
            2 * x + 1
        } else {
            2 * x + 2
        };
        lemma_node_size_pos(lvl, min, f);
        if c != f {
            lemma_full_below(b, lvl, min, c, f);
        }
    }
}

/// Handing out node `f`, fully free below ancestors that all hold a
/// nonzero entry, takes its size off the free bytes of the tree.
pub proof fn lemma_use_takes(b: Seq<usize>, b2: Seq<usize>, lvl: nat, min: nat, f: int)
    requires
        tree_ok(b, lvl, min),
        tree_ok(b2, lvl, min),
        min >= 1,
        0 <= f < num_nodes(lvl),
        b[f] == size_of_node(lvl, min, f),
        marked_used(b, b2, f),
        forall|x: int| #[trigger] is_ancestor(x, f) ==> b[x] != 0,
    ensures
        free_in(b2, lvl, min, 0) == free_in(b, lvl, min, 0) - size_of_node(lvl, min, f),
{
    lemma_node_size_pos(lvl, min, f);
    assert forall|x: int| #[trigger] is_ancestor(x, f) implies splits(b, x) && splits(b2, x) by {
        assert(b2[x] == max_of(b2[2 * x + 1] as int, b2[2 * x + 2] as int));
    }
    if f > 0 {
        lemma_root_ancestor(f);
    }
    lemma_path_change(b, b2, lvl, min, f, 0);
}

/// Giving back node `f`, which held 0, adds its size to the free bytes of
/// the tree.
pub proof fn lemma_free_gives(b: Seq<usize>, b2: Seq<usize>, lvl: nat, min: nat, f: int)
    requires
        tree_ok(b, lvl, min),
        tree_ok(b2, lvl, min),
        min >= 1,
        0 <= f < num_nodes(lvl),
        b[f] == 0,
        marked_free(b, b2, lvl, min, f),
    ensures
        free_in(b2, lvl, min, 0) == free_in(b, lvl, min, 0) + size_of_node(lvl, min, f),
{
    lemma_node_size_pos(lvl, min, f);
    assert forall|x: int| #[trigger] is_ancestor(x, f) implies splits(b, x) && splits(b2, x) by {
        lemma_zero_below_splits(b, lvl, min, f, x);
        lemma_ancestor_children_in_tree(x, f, lvl);
        lemma_depth_range(lvl, x);
        lemma_node_size_pos(lvl, min, x);
        assert(b2[x] == combine(b2[2 * x + 1] as int, b2[2 * x + 2] as int, size_of_node(lvl, min, x)));
    }
    if f > 0 {
        lemma_root_ancestor(f);
    }
    lemma_path_change(b, b2, lvl, min, f, 0);
}

/// The largest free block inside a node is at most the bytes free in it.
pub proof fn lemma_largest_le_free(b: Seq<usize>, lvl: nat, min: nat, i: int)
    requires
        tree_ok(b, lvl, min),
        min >= 1,
        0 <= i < num_nodes(lvl),
    ensures
        b[i] <= free_in(b, lvl, min, i),
    decreases lvl - depth(i),
{
    lemma_pow2_succ(lvl);
    lemma_depth_range(lvl, i);
    lemma_node_size_pos(lvl, min, i);
    assert(node_ok(b, lvl, min, i));
    let ns = size_of_node(lvl, min, i);
    if b[i] != ns && b[i] != 0 && depth(i) < lvl {
        lemma_depth_children(i);
        lemma_node_size_child(lvl, min, i);
        lemma_largest_le_free(b, lvl, min, 2 * i + 1);
        lemma_largest_le_free(b, lvl, min, 2 * i + 2);
        lemma_free_in_bounds(b, lvl, min, 2 * i + 1);
        lemma_free_in_bounds(b, lvl, min, 2 * i + 2);
    }
}

} // verus!
