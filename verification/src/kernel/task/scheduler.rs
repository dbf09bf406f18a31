//! Stride scheduling units, ordered by pass value with wrap-around.
use vstd::prelude::*;

verus! {

use core::cmp::Ordering;

/// A task with its stride pass value.
#[derive(Clone, Copy, Debug)]
pub struct ScheduleUnit {
    pub task: usize,
    pub pass: usize,
}

/// Pass `a` is ahead of pass `b` when it is larger by at most half the
/// range, or smaller by more than half (the counter wrapped around).
pub open spec fn pass_ahead(a: usize, b: usize) -> bool {
    (a > b && a - b <= usize::MAX / 2) || (a < b && b - a > usize::MAX / 2)
}

impl ScheduleUnit {
    /// Units with the same pass are equal.
    pub fn eq(&self, other: &Self) -> (r: bool)
        ensures
            r == (self.pass == other.pass),
    {
        self.pass == other.pass
    }

    /// Orders units so that the one whose pass is behind comes out on top
    /// of a max-heap: a unit ahead of the other compares as `Less`.
    pub fn cmp(&self, other: &Self) -> (r: Ordering)
        ensures
            self.pass == other.pass ==> r == Ordering::Equal,
            pass_ahead(self.pass, other.pass) ==> r == Ordering::Less,
            pass_ahead(other.pass, self.pass) ==> r == Ordering::Greater,
    {
        if self.pass > other.pass {
            if self.pass - other.pass <= usize::MAX / 2 {
                Ordering::Less
            } else {
                Ordering::Greater
            }
        } else if self.pass < other.pass {
            if other.pass - self.pass <= usize::MAX / 2 {
                Ordering::Greater
            } else {
                Ordering::Less
            }
        } else {
            Ordering::Equal
        }
    }

    pub fn partial_cmp(&self, other: &Self) -> (r: Option<Ordering>)
        ensures
            r == Some(self.cmp_result(other)),
    {
        Some(self.cmp(other))
    }

    /// The result of `cmp`.
    pub open spec fn cmp_result(&self, other: &Self) -> Ordering {
        if self.pass == other.pass {
            Ordering::Equal
        } else if pass_ahead(self.pass, other.pass) {
            Ordering::Less
        } else {
            Ordering::Greater
        }
    }
}

/// Exactly one of two different passes is ahead of the other.
pub proof fn lemma_pass_order_total(a: usize, b: usize)
    requires
        a != b,
    ensures
        pass_ahead(a, b) != pass_ahead(b, a),
{
}

} // verus!
