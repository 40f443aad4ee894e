//! Sampler that keeps the available values as an ordered list of runs.
use vstd::prelude::*;
use std::ops::Range;

use crate::impls::{
    increasing, lemma_increasing_distinct, lemma_increasing_gap, lemma_remove_contains, span,
    RandgeTake,
};

verus! {

/// Sampler over an ordered list of disjoint, non-adjacent runs of
/// available values.
#[derive(Debug)]
pub struct RangesLinear {
    size: Range<i64>,
    rs: Vec<Range<i64>>,
}

/// The values of one run.
pub open spec fn span_of(r: Range<i64>) -> Seq<int> {
    span(r.start as int, r.end as int)
}

/// The values of a list of runs, run after run.
pub open spec fn flat(rs: Seq<Range<i64>>) -> Seq<int>
    decreases rs.len(),
{
    if rs.len() == 0 {
        Seq::empty()
    } else {
        flat(rs.drop_last()) + span_of(rs.last())
    }
}

/// Every run is non-empty and ends before the next one starts, with a gap.
pub open spec fn runs_wf(rs: Seq<Range<i64>>) -> bool {
    &&& forall|i: int| 0 <= i < rs.len() ==> (#[trigger] rs[i]).start < rs[i].end
    &&& forall|i: int| 0 <= i < rs.len() - 1 ==> (#[trigger] rs[i]).end < rs[i + 1].start
}

proof fn lemma_flat_append(a: Seq<Range<i64>>, b: Seq<Range<i64>>)
    ensures
        flat(a + b) == flat(a) + flat(b),
    decreases b.len(),
{
    if b.len() == 0 {
        assert(a + b =~= a);
        assert(flat(a) + flat(b) =~= flat(a));
    } else {
        assert((a + b).drop_last() =~= a + b.drop_last());
        lemma_flat_append(a, b.drop_last());
        assert(flat(a + b) =~= flat(a) + flat(b));
    }
}

/// A stretch of a well-formed list of runs is well-formed.
proof fn lemma_runs_sub(rs: Seq<Range<i64>>, from: int, to: int)
    requires
        runs_wf(rs),
        0 <= from <= to <= rs.len(),
    ensures
        runs_wf(rs.subrange(from, to)),
{
    let p = rs.subrange(from, to);
    assert forall|m: int| 0 <= m < p.len() implies (#[trigger] p[m]).start < p[m].end by {
        assert(p[m] == rs[m + from]);
    }
    assert forall|m: int| 0 <= m < p.len() - 1 implies (#[trigger] p[m]).end < p[m + 1].start by {
        assert(p[m] == rs[m + from]);
        assert(p[m + 1] == rs[m + from + 1]);
    }
}

proof fn lemma_flat_bounds(rs: Seq<Range<i64>>)
    requires
        runs_wf(rs),
    ensures
        increasing(flat(rs)),
        rs.len() > 0 ==> forall|j: int|
            0 <= j < flat(rs).len() ==> rs[0].start <= #[trigger] flat(rs)[j] < rs.last().end,
    decreases rs.len(),
{
    if rs.len() > 0 {
        let p = rs.drop_last();
        assert(p =~= rs.subrange(0, rs.len() - 1));
        lemma_runs_sub(rs, 0, rs.len() - 1);
        lemma_flat_bounds(p);
        lemma_runs_order(rs, 0);
        let a = flat(p);
        let b = span_of(rs.last());
        let s = a + b;
        if p.len() > 0 {
            assert(p.last() == rs[rs.len() - 2]);
            assert(p.last().end < rs.last().start);
            assert(p[0] == rs[0]);
        }
        assert(rs.last().start < rs.last().end);
        assert forall|j: int| 0 <= j < s.len() implies rs[0].start <= #[trigger] s[j]
            < rs.last().end by {
            if j >= a.len() {
                assert(s[j] == b[j - a.len()]);
            } else {
                assert(s[j] == a[j]);
            }
        }
        assert forall|i: int, j: int| 0 <= i < j < s.len() implies s[i] < s[j] by {
            if j < a.len() {
                assert(s[i] == a[i]);
                assert(s[j] == a[j]);
            } else if i >= a.len() {
                assert(s[i] == b[i - a.len()]);
                assert(s[j] == b[j - a.len()]);
            } else {
                assert(s[i] == a[i]);
                assert(s[j] == b[j - a.len()]);
            }
        }
    }
}

/// In a well-formed list, a run starts no later than the last run does.
proof fn lemma_runs_order(rs: Seq<Range<i64>>, i: int)
    requires
        runs_wf(rs),
        0 <= i < rs.len(),
    ensures
        rs[i].start <= rs.last().start,
    decreases rs.len() - i,
{
    if i < rs.len() - 1 {
        assert(rs[i].start < rs[i].end);
        assert(rs[i].end < rs[i + 1].start);
        lemma_runs_order(rs, i + 1);
    }
}

/// Replacing run `i` by runs that lie inside it keeps the list well-formed,
/// and the values change only where run `i` stood.
proof fn lemma_replace_run(rs: Seq<Range<i64>>, i: int, mid: Seq<Range<i64>>)
    requires
        runs_wf(rs),
        0 <= i < rs.len(),
        runs_wf(mid),
        forall|m: int|
            0 <= m < mid.len() ==> rs[i].start <= (#[trigger] mid[m]).start && mid[m].end
                <= rs[i].end,
    ensures
        runs_wf(rs.subrange(0, i) + mid + rs.subrange(i + 1, rs.len() as int)),
        flat(rs) == flat(rs.subrange(0, i)) + span_of(rs[i]) + flat(
            rs.subrange(i + 1, rs.len() as int),
        ),
        flat(rs.subrange(0, i) + mid + rs.subrange(i + 1, rs.len() as int)) == flat(
            rs.subrange(0, i),
        ) + flat(mid) + flat(rs.subrange(i + 1, rs.len() as int)),
{
    let a = rs.subrange(0, i);
    let c = rs.subrange(i + 1, rs.len() as int);
    let one = seq![rs[i]];
    assert(one.drop_last() =~= Seq::<Range<i64>>::empty());
    assert(flat(one.drop_last()) =~= Seq::<int>::empty());
    assert(flat(one) =~= span_of(rs[i]));
    assert(rs =~= a + one + c);
    lemma_flat_append(a, one);
    lemma_flat_append(a + one, c);
    lemma_flat_append(a, mid);
    lemma_flat_append(a + mid, c);
    let n = a + mid + c;
    let am = a.len() + mid.len();
    assert forall|m: int| 0 <= m < n.len() implies (#[trigger] n[m]).start < n[m].end by {
        if m < i {
            assert(n[m] == rs[m]);
        } else if m < am {
            assert(n[m] == mid[m - i]);
        } else {
            assert(n[m] == rs[m - mid.len() + 1]);
        }
    }
    assert forall|m: int| 0 <= m < n.len() - 1 implies (#[trigger] n[m]).end < n[m + 1].start by {
        if m + 1 < i {
            assert(n[m] == rs[m]);
            assert(n[m + 1] == rs[m + 1]);
        } else if m + 1 == i {
            assert(n[m] == rs[m]);
            assert(rs[m].end < rs[i].start);
            if mid.len() > 0 {
                assert(n[m + 1] == mid[0]);
            } else {
                assert(n[m + 1] == rs[i + 1]);
                assert(rs[i].start < rs[i].end);
                assert(rs[i].end < rs[i + 1].start);
            }
        } else if m + 1 < am {
            assert(n[m] == mid[m - i]);
            assert(n[m + 1] == mid[m + 1 - i]);
        } else if m + 1 == am {
            assert(n[m + 1] == rs[i + 1]);
            assert(rs[i].end < rs[i + 1].start);
            if mid.len() > 0 {
                assert(n[m] == mid[mid.len() - 1]);
            } else {
                assert(n[m] == rs[m]);
            }
        } else {
            assert(n[m] == rs[m - mid.len() + 1]);
            assert(n[m + 1] == rs[m - mid.len() + 2]);
        }
    }
}

/// Where run `i` stands among the values of the whole list.
proof fn lemma_run_at(rs: Seq<Range<i64>>, i: int)
    requires
        runs_wf(rs),
        0 <= i < rs.len(),
    ensures
        flat(rs.subrange(0, i + 1)).len() == flat(rs.subrange(0, i)).len() + (rs[i].end
            - rs[i].start),
        flat(rs.subrange(0, i + 1)).len() <= flat(rs).len(),
        i + 1 == rs.len() ==> flat(rs.subrange(0, i + 1)).len() == flat(rs).len(),
        forall|j: int|
            0 <= j < rs[i].end - rs[i].start ==> #[trigger] flat(rs)[flat(rs.subrange(0, i)).len()
                + j] == rs[i].start + j,
        i + 1 < rs.len() && flat(rs.subrange(0, i + 1)).len() < flat(rs).len() ==> flat(
            rs,
        )[flat(rs.subrange(0, i + 1)).len() as int] >= rs[i + 1].start,
{
    let a = rs.subrange(0, i);
    let c = rs.subrange(i + 1, rs.len() as int);
    lemma_replace_run(rs, i, Seq::empty());
    assert(rs.subrange(0, i + 1).drop_last() =~= a);
    assert(rs.subrange(0, rs.len() as int) =~= rs);
    let p = flat(a).len();
    let f = flat(rs);
    assert forall|j: int| 0 <= j < rs[i].end - rs[i].start implies #[trigger] f[p + j]
        == rs[i].start + j by {
        assert(f[p + j] == span_of(rs[i])[j]);
    }
    if i + 1 < rs.len() && flat(rs.subrange(0, i + 1)).len() < flat(rs).len() {
        assert(c[0] == rs[i + 1]);
        lemma_runs_sub(rs, i + 1, rs.len() as int);
        lemma_flat_bounds(c);
        assert(f[p + (rs[i].end - rs[i].start)] == flat(c)[0]);
    }
}

/// Removes the value `cur` from run `i` of a well-formed list of runs,
/// shrinking, splitting or dropping the run.
fn cut_run(rs: &mut Vec<Range<i64>>, i: usize, cur: i64)
    requires
        runs_wf(old(rs)@),
        i < old(rs)@.len(),
        old(rs)@[i as int].start <= cur < old(rs)@[i as int].end,
    ensures
        runs_wf(final(rs)@),
        flat(final(rs)@) == flat(old(rs)@).remove(
            flat(old(rs)@.subrange(0, i as int)).len() + cur - old(rs)@[i as int].start,
        ),
{
    let ghost rs0 = rs@;
    let ghost a = rs0.subrange(0, i as int);
    let ghost c = rs0.subrange(i + 1, rs0.len() as int);
    let start = rs[i].start;
    let end = rs[i].end;
    let after = cur + 1;
    let ghost mid: Seq<Range<i64>>;
    if after == end {
        if cur == start {
            rs.remove(i);
            proof {
                mid = Seq::empty();
            }
        } else {
            rs.set(i, start..cur);
            proof {
                mid = seq![start..cur];
            }
        }
    } else {
        rs.set(i, after..end);
        if cur != start {
            rs.insert(i, start..cur);
            proof {
                mid = seq![start..cur, after..end];
            }
        } else {
            proof {
                mid = seq![after..end];
            }
        }
    }
    proof {
        assert(rs@ =~= a + mid + c);
        lemma_replace_run(rs0, i as int, mid);
        if mid.len() == 1 {
            assert(mid.drop_last() =~= Seq::<Range<i64>>::empty());
            assert(flat(mid.drop_last()) =~= Seq::<int>::empty());
        } else if mid.len() == 2 {
            let m0 = mid.drop_last();
            assert(m0 =~= seq![mid[0]]);
            assert(m0.drop_last() =~= Seq::<Range<i64>>::empty());
            assert(flat(m0.drop_last()) =~= Seq::<int>::empty());
            assert(flat(m0) =~= span_of(mid[0]));
        }
        assert(flat(mid) =~= span_of(rs0[i as int]).remove(cur - start));
        assert(flat(rs@) =~= flat(rs0).remove(flat(a).len() + cur - start));
    }
}

impl RangesLinear {
    pub fn new(min: i64, max: i64) -> (s: Self)
        requires
            min <= max,
        ensures
            s.wf(),
            s.lo() == min,
            s.pool() == span(min as int, max as int),
    {
        let mut rs: Vec<Range<i64>> = Vec::new();
        if min < max {
            rs.push(min..max);
        }
        let s = Self { size: min..max, rs };
        proof {
            if min < max {
                assert(s.rs@.drop_last() =~= Seq::<Range<i64>>::empty());
                assert(flat(s.rs@.drop_last()) =~= Seq::<int>::empty());
            } else {
                assert(s.rs@ =~= Seq::<Range<i64>>::empty());
            }
            assert(s.pool() =~= span(min as int, max as int));
        }
        s
    }
}

impl RandgeTake for RangesLinear {
    closed spec fn wf(&self) -> bool {
        &&& runs_wf(self.rs@)
        &&& self.size.start <= self.size.end
        &&& flat(self.rs@).len() == self.size.end - self.size.start
    }

    closed spec fn lo(&self) -> int {
        self.size.start as int
    }

    open spec fn pool_after(&self, k: int) -> Seq<int> {
        self.pool().remove(k)
    }

    closed spec fn pool(&self) -> Seq<int> {
        flat(self.rs@)
    }

    fn range(&self) -> (r: Range<i64>) {
        self.size.start..self.size.end
    }

    fn take(&mut self, num: i64) -> (v: i64)
        ensures
            final(self).pool() == old(self).pool().remove(num - old(self).lo()),
            increasing(final(self).pool()),
    {
        let ghost rs0 = self.rs@;
        let ghost k = num - self.size.start;
        let ghost total = flat(rs0).len();
        proof {
            assert(0 <= k < total);
            lemma_flat_bounds(rs0);
            if rs0.len() == 0 {
                assert(flat(rs0) =~= Seq::<int>::empty());
            }
            lemma_increasing_gap(flat(rs0), 0, k);
            assert(flat(rs0)[k] < rs0.last().end);
        }
        self.size.end = self.size.end - 1;
        let mut cur: i64 = (num as i128 - self.size.start as i128 + self.rs[0].start as i128)
            as i64;
        let mut i: usize = 0;
        let len = self.rs.len();
        loop
            invariant
                self.rs@ == rs0,
                rs0 == old(self).rs@,
                len == rs0.len(),
                runs_wf(rs0),
                increasing(flat(rs0)),
                total == flat(rs0).len(),
                self.size.start == old(self).size.start,
                self.size.end == old(self).size.end - 1,
                old(self).size.end - old(self).size.start == total,
                k == num - old(self).size.start,
                0 <= i < rs0.len(),
                flat(rs0.subrange(0, i as int)).len() <= k < total,
                cur == rs0[i as int].start + k - flat(rs0.subrange(0, i as int)).len(),
                cur <= flat(rs0)[k] < i64::MAX,
            decreases rs0.len() - i,
        {
            let start = self.rs[i].start;
            let end = self.rs[i].end;
            proof {
                lemma_run_at(rs0, i as int);
            }
            if cur >= end {
                assert(k >= flat(rs0.subrange(0, i + 1)).len());
                assert(i + 1 < len);
                let next = i + 1;
                proof {
                    let p = flat(rs0.subrange(0, next as int)).len() as int;
                    lemma_increasing_gap(flat(rs0), p, k);
                }
                cur = (cur as i128 - end as i128 + self.rs[next].start as i128) as i64;
                i = next;
                continue;
            }
            assert(flat(rs0)[k] == flat(rs0)[flat(rs0.subrange(0, i as int)).len() + (cur
                - start)]);
            cut_run(&mut self.rs, i, cur);
            assert(flat(self.rs@) == flat(rs0).remove(k));
            proof {
                lemma_increasing_distinct(flat(rs0));
                lemma_remove_contains(flat(rs0), k);
            }
            return cur;
        }
    }
}

} // verus!
