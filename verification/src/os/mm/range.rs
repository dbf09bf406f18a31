//! Half-open ranges of ordered values that can step to their successor,
//! and their iterators.
use vstd::prelude::*;

verus! {

/// Values that can move to their successor, placed in a total order.
pub trait Step: Sized + Copy {
    /// The value's place in the order; the successor is one place on.
    spec fn place(&self) -> int;

    /// Whether the value has a successor.
    spec fn has_next(&self) -> bool;

    /// A value below another one has a successor.
    proof fn lemma_below_has_next(&self, other: &Self)
        requires
            self.place() < other.place(),
        ensures
            self.has_next(),
    ;

    fn step(&mut self)
        requires
            old(self).has_next(),
        ensures
            final(self).place() == old(self).place() + 1,
    ;

    /// Whether the value lies at or after `other`.
    fn at_or_after(&self, other: &Self) -> (r: bool)
        ensures
            r == (self.place() >= other.place()),
    ;
}

impl Step for usize {
    open spec fn place(&self) -> int {
        *self as int
    }

    open spec fn has_next(&self) -> bool {
        *self < usize::MAX
    }

    proof fn lemma_below_has_next(&self, other: &Self) {
    }

    fn step(&mut self) {
        *self = *self + 1;
    }

    fn at_or_after(&self, other: &Self) -> (r: bool) {
        *self >= *other
    }
}

/// The values from `l` up to, not including, `r`.
#[derive(Clone, Copy, Debug)]
pub struct Range<T: Step> {
    pub l: T,
    pub r: T,
}

/// Walks a range from its start.
pub struct Iter<T: Step> {
    cur: T,
    end: T,
}

impl<T: Step> Range<T> {
    /// The range from `start` to `end`, which must not lie before `start`.
    pub fn new(start: T, end: T) -> (s: Self)
        requires
            start.place() <= end.place(),
        ensures
            s.l == start,
            s.r == end,
    {
        Range { l: start, r: end }
    }

    pub fn iter(&self) -> (it: Iter<T>)
        ensures
            it.position() == self.l.place(),
            it.end() == self.r.place(),
    {
        Iter { cur: self.l, end: self.r }
    }
}

impl<T: Step> Iter<T> {
    /// The place of the value the next call yields, if below the end.
    pub closed spec fn position(&self) -> int {
        self.cur.place()
    }

    pub closed spec fn end(&self) -> int {
        self.end.place()
    }

    /// The places of the values still to come.
    pub open spec fn remaining(&self) -> Seq<int> {
        if self.position() < self.end() {
            Seq::new((self.end() - self.position()) as nat, |i: int| self.position() + i)
        } else {
            Seq::empty()
        }
    }

    /// Yields the current value and moves on; `None` once the end is reached.
    pub fn next(&mut self) -> (r: Option<T>)
        ensures
            old(self).position() >= old(self).end() ==> r is None && *final(self) == *old(self),
            old(self).position() < old(self).end() ==> r is Some && r->0.place() == old(self).position()
                && final(self).position() == old(self).position() + 1 && final(self).end() == old(self).end(),
            final(self).remaining() == if old(self).remaining().len() == 0 {
                old(self).remaining()
            } else {
                old(self).remaining().drop_first()
            },
            old(self).remaining().len() > 0 ==> r is Some && r->0.place() == old(self).remaining()[0],
            old(self).remaining().len() == 0 ==> r is None,
    {
        if self.cur.at_or_after(&self.end) {
            None
        } else {
            let t = self.cur;
            proof {
                self.cur.lemma_below_has_next(&self.end);
            }
            self.cur.step();
            proof {
                assert(final(self).remaining() =~= old(self).remaining().drop_first());
            }
            Some(t)
        }
    }
}

} // verus!
