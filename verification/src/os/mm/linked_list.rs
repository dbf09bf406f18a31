//! An intrusive singly linked list of free memory blocks, modelled by the
//! sequence of block addresses from the head on.
use vstd::prelude::*;

verus! {

/// The address that follows position `i`: the next block, or the null
/// address 0 after the last one.
pub open spec fn next_addr(s: Seq<usize>, i: int) -> int {
    if i + 1 < s.len() {
        s[i + 1] as int
    } else {
        0
    }
}

/// The first position whose next address is `node`, searching from `i`; -1 if none.
pub open spec fn pre_from(s: Seq<usize>, node: int, i: int) -> int
    decreases s.len() - i,
{
    if i < 0 || i >= s.len() {
        -1
    } else if next_addr(s, i) == node {
        i
    } else {
        pre_from(s, node, i + 1)
    }
}

/// The position of the block whose next address is `node`, or -1.
pub open spec fn pre_of(s: Seq<usize>, node: int) -> int {
    pre_from(s, node, 0)
}

/// A list of free blocks, each block holding the address of the next.
pub struct LinkedList {
    nodes: Vec<usize>,
}

impl View for LinkedList {
    type V = Seq<usize>;

    /// Block addresses from the head on.
    closed spec fn view(&self) -> Seq<usize> {
        self.nodes@
    }
}

impl LinkedList {
    pub fn new() -> (l: Self)
        ensures
            l@ == Seq::<usize>::empty(),
    {
        LinkedList { nodes: Vec::new() }
    }

    /// Makes the block at `node` the new head.
    pub fn push_front(&mut self, node: usize)
        ensures
            final(self)@ == seq![node] + old(self)@,
    {
        self.nodes.insert(0, node);
        proof {
            assert(self.nodes@ =~= seq![node] + old(self)@);
        }
    }

    /// Takes the head block off the list.
    pub fn pop_front(&mut self) -> (r: Option<usize>)
        ensures
            old(self)@.len() == 0 ==> r is None && final(self)@ == old(self)@,
            old(self)@.len() > 0 ==> r == Some(old(self)@[0]) && final(self)@ == old(self)@.drop_first(),
    {
        if self.nodes.len() == 0 {
            return None;
        }
        let node = self.nodes.remove(0);
        proof {
            assert(self.nodes@ =~= old(self)@.drop_first());
        }
        Some(node)
    }

    /// Unlinks the block that follows position `pre`.
    pub fn pop(&mut self, pre: usize)
        requires
            pre + 1 < old(self)@.len(),
        ensures
            final(self)@ == old(self)@.remove(pre + 1),
    {
        let n = self.nodes.len();
        assert(pre + 1 < n);
        self.nodes.remove(pre + 1);
    }

    /// The position of the block whose successor is `node` (the last block's
    /// successor is the null address 0), or `None`.
    pub fn find_pre(&self, node: usize) -> (r: Option<usize>)
        ensures
            match r {
                Some(p) => pre_of(self@, node as int) == p && p < self@.len() && next_addr(
                    self@,
                    p as int,
                ) == node,
                None => pre_of(self@, node as int) == -1,
            },
    {
        let mut p: usize = 0;
        while p < self.nodes.len()
            invariant
                p <= self@.len(),
                pre_of(self@, node as int) == pre_from(self@, node as int, p as int),
            decreases self@.len() - p,
        {
            let nex: usize = if p + 1 < self.nodes.len() {
                self.nodes[p + 1]
            } else {
                0
            };
            if nex == node {
                return Some(p);
            }
            p = p + 1;
        }
        None
    }

    /// Number of blocks.
    pub fn nodes_len(&self) -> (n: usize)
        ensures
            n == self@.len(),
    {
        self.nodes.len()
    }

    /// The head block, if any.
    pub fn front(&self) -> (r: Option<usize>)
        ensures
            r == if self@.len() > 0 {
                Some(self@[0])
            } else {
                None::<usize>
            },
    {
        if self.nodes.len() == 0 {
            None
        } else {
            Some(self.nodes[0])
        }
    }

    pub fn is_empty(&self) -> (b: bool)
        ensures
            b == (self@.len() == 0),
    {
        self.nodes.len() == 0
    }
}

} // verus!
