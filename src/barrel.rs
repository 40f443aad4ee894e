//! Sampler that keeps every value of the domain in one array: a partial
//! in-place shuffle.
use vstd::prelude::*;
use std::ops::Range;

use crate::impls::{span, RandgeTake};

verus! {

/// Sampler over an array that holds every value of the domain; the first
/// `size.end - size.start` slots hold the values still available.
#[derive(Debug)]
pub struct RangesBarrel {
    size: Range<i64>,
    barrel: Vec<i64>,
}

impl RangesBarrel {
    pub fn new(min: i64, max: i64) -> (s: Self)
        requires
            min <= max,
            max - min <= usize::MAX,
        ensures
            s.wf(),
            s.lo() == min,
            s.pool() == span(min as int, max as int),
    {
        let mut barrel: Vec<i64> = Vec::new();
        let mut x = min;
        while x < max
            invariant
                min <= x <= max,
                max - min <= usize::MAX,
                barrel@.len() == x - min,
                forall|i: int| 0 <= i < barrel@.len() ==> barrel@[i] == min + i,
            decreases max - x,
        {
            barrel.push(x);
            x = x + 1;
        }
        let s = Self { size: min..max, barrel };
        assert(s.pool() =~= span(min as int, max as int));
        s
    }

    /// Index of the slot that holds the value of rank `val`.
    fn offset(&self, val: i64) -> (r: usize)
        requires
            self.wf(),
            self.size.start <= val < self.size.end,
        ensures
            r == val - self.size.start,
    {
        (val as i128 - self.size.start as i128) as usize
    }
}

impl RandgeTake for RangesBarrel {
    closed spec fn wf(&self) -> bool {
        &&& self.size.start <= self.size.end
        &&& self.size.end - self.size.start <= self.barrel@.len()
        &&& self.size.end - self.size.start <= usize::MAX
        &&& self.pool().no_duplicates()
    }

    closed spec fn lo(&self) -> int {
        self.size.start as int
    }

    open spec fn pool_after(&self, k: int) -> Seq<int> {
        self.pool().update(k, self.pool().last()).drop_last()
    }

    closed spec fn pool(&self) -> Seq<int> {
        Seq::new(
            (self.size.end - self.size.start) as nat,
            |i: int| self.barrel@[i] as int,
        )
    }

    fn range(&self) -> (r: Range<i64>) {
        self.size.start..self.size.end
    }

    fn take(&mut self, num: i64) -> (v: i64)
        ensures
            final(self).pool() == old(self).pool().update(
                num - old(self).lo(),
                old(self).pool().last(),
            ).drop_last(),
    {
        let ghost p = self.pool();
        let index = self.offset(num);
        let last = self.offset(self.size.end - 1);
        self.size.end = self.size.end - 1;
        let v = self.barrel[index];
        let w = self.barrel[last];
        self.barrel.set(index, w);
        self.barrel.set(last, v);
        assert(v == p[index as int]);
        assert(w == p[last as int]);
        let ghost q = p.update(index as int, p.last()).drop_last();
        assert(self.pool() =~= q);
        assert forall|x: int| #[trigger] q.contains(x) <==> (p.contains(x) && x != v) by {
            if q.contains(x) {
                let i = choose|i: int| 0 <= i < q.len() && q[i] == x;
                if i == index {
                    assert(p[last as int] == x);
                } else {
                    assert(p[i] == x);
                }
            }
            if p.contains(x) && x != v {
                let i = choose|i: int| 0 <= i < p.len() && p[i] == x;
                if i == last {
                    assert(q[index as int] == x);
                } else {
                    assert(q[i] == x);
                }
            }
        }
        assert forall|i: int, j: int| 0 <= i < q.len() && 0 <= j < q.len() && i != j implies q[i]
            != q[j] by {
            let pi = if i == index { last as int } else { i };
            let pj = if j == index { last as int } else { j };
            assert(q[i] == p[pi]);
            assert(q[j] == p[pj]);
        }
        v
    }
}

} // verus!
