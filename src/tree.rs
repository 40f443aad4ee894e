//! Sampler that keeps the available values in a binary tree of ranges.
use vstd::prelude::*;
use std::ops::Range;

use crate::impls::{increasing, lemma_increasing_distinct, lemma_remove_contains, span, RandgeTake};
use crate::utils::{decimal, int_text};

verus! {

/// Sampler over a binary tree whose leaves hold runs of available values.
///
/// An interior node holds, in `range`, its first value and its first value
/// plus the number of values below it; a leaf holds its run of values.
#[derive(Debug)]
pub struct RangesTree {
    size: Range<i64>,
    tree: TheTree,
}

#[derive(Debug)]
pub(crate) struct TheTree {
    pub(crate) range: Range<i64>,
    pub(crate) tree: Option<Box<TheTreeSub>>,
    pub(crate) lr: TheTreeLR,
}

#[derive(Debug)]
pub(crate) struct TheTreeSub {
    pub(crate) l: TheTree,
    pub(crate) r: TheTree,
}

/// Which side of its parent a node was created on.
#[derive(Debug, Clone, Copy, PartialEq, Eq, Structural)]
pub(crate) enum TheTreeLR {
    Root,
    L,
    R,
}

impl TheTree {
    /// Number of values held below this node.
    spec fn count(self) -> int {
        self.range.end - self.range.start
    }

    /// The values held below this node, in increasing order.
    spec fn elems(self) -> Seq<int>
        decreases self,
    {
        match self.tree {
            None => span(self.range.start as int, self.range.end as int),
            Some(sub) => sub.l.elems() + sub.r.elems(),
        }
    }

    /// Upper bound (exclusive) of the values held below this node.
    spec fn top(self) -> int
        decreases self,
    {
        match self.tree {
            None => self.range.end as int,
            Some(sub) => sub.r.top(),
        }
    }

    spec fn wf(self) -> bool
        decreases self,
    {
        match self.tree {
            None => self.range.start <= self.range.end,
            Some(sub) => {
                &&& sub.l.wf()
                &&& sub.r.wf()
                &&& sub.l.count() > 0
                &&& sub.r.count() > 0
                &&& self.range.start == sub.l.range.start
                &&& self.count() == sub.l.count() + sub.r.count()
                &&& sub.l.top() <= sub.r.range.start
            },
        }
    }

    proof fn lemma_wf(self)
        requires
            self.wf(),
        ensures
            self.elems().len() == self.count(),
            self.range.start <= self.range.end <= self.top(),
            self.tree.is_some() ==> self.count() >= 2,
            increasing(self.elems()),
            forall|i: int|
                0 <= i < self.elems().len() ==> self.range.start <= #[trigger] self.elems()[i]
                    < self.top(),
        decreases self,
    {
        match self.tree {
            None => {},
            Some(sub) => {
                sub.l.lemma_wf();
                sub.r.lemma_wf();
                let a = sub.l.elems();
                let b = sub.r.elems();
                let s = a + b;
                assert forall|i: int| 0 <= i < s.len() implies self.range.start <= #[trigger] s[i]
                    < self.top() by {
                    if i >= a.len() {
                        assert(s[i] == b[i - a.len()]);
                    }
                }
                assert forall|i: int, j: int| 0 <= i < j < s.len() implies s[i] < s[j] by {
                    if j < a.len() {
                    } else if i >= a.len() {
                        assert(s[i] == b[i - a.len()]);
                        assert(s[j] == b[j - a.len()]);
                    } else {
                        assert(s[i] == a[i]);
                        assert(s[j] == b[j - a.len()]);
                    }
                }
            },
        }
    }

    /// What an interior node's invariant says of its children.
    proof fn lemma_unfold(self)
        requires
            self.wf(),
            self.tree.is_some(),
        ensures
            self.tree.unwrap().l.wf(),
            self.tree.unwrap().r.wf(),
            self.tree.unwrap().l.count() > 0,
            self.tree.unwrap().r.count() > 0,
            self.range.start == self.tree.unwrap().l.range.start,
            self.count() == self.tree.unwrap().l.count() + self.tree.unwrap().r.count(),
            self.tree.unwrap().l.top() <= self.tree.unwrap().r.range.start,
            self.elems() == self.tree.unwrap().l.elems() + self.tree.unwrap().r.elems(),
            self.top() == self.tree.unwrap().r.top(),
    {
    }

    /// Two nodes with the same range and children hold the same values.
    proof fn lemma_same_shape(self, other: Self)
        requires
            self.range == other.range,
            self.tree == other.tree,
        ensures
            self.wf() == other.wf(),
            self.elems() == other.elems(),
            self.top() == other.top(),
    {
    }

    pub(crate) fn new(range: Range<i64>) -> (t: Self)
        ensures
            t.range == range,
            t.tree.is_none(),
            t.lr == TheTreeLR::Root,
    {
        Self { range, tree: None, lr: TheTreeLR::Root }
    }

    pub(crate) fn l(range: Range<i64>) -> (t: Self)
        ensures
            t.range == range,
            t.tree.is_none(),
            t.lr == TheTreeLR::L,
    {
        Self { range, tree: None, lr: TheTreeLR::L }
    }

    pub(crate) fn r(range: Range<i64>) -> (t: Self)
        ensures
            t.range == range,
            t.tree.is_none(),
            t.lr == TheTreeLR::R,
    {
        Self { range, tree: None, lr: TheTreeLR::R }
    }

    /// Removes and returns the value of rank `num - range.start` below this node.
    fn take(&mut self, num: i64) -> (v: i64)
        requires
            old(self).wf(),
            old(self).range.start <= num < old(self).range.end,
        ensures
            final(self).wf(),
            final(self).lr == old(self).lr,
            v == old(self).elems()[num - old(self).range.start],
            final(self).elems() == old(self).elems().remove(num - old(self).range.start),
            final(self).count() == old(self).count() - 1,
            old(self).range.start <= final(self).range.start,
            final(self).top() <= old(self).top(),
        decreases *old(self),
    {
        proof {
            self.lemma_wf();
        }
        if self.tree.is_none() {
            let start = self.range.start;
            let end = self.range.end;
            if num == start {
                self.range.start = num + 1;
            } else if num + 1 == end {
                self.range.end = num;
            } else {
                let sub = TheTreeSub { l: TheTree::l(start..num), r: TheTree::r(num + 1..end) };
                assert(sub.l.elems() == span(start as int, num as int));
                assert(sub.r.elems() == span(num + 1, end as int));
                assert(sub.l.wf() && sub.r.wf());
                assert(sub.r.top() == end);
                self.tree = Some(Box::new(sub));
                self.range.end = end - 1;
                assert(self.top() == end);
                assert(self.elems() =~= span(start as int, end as int).remove(num - start));
            }
            assert(self.elems() =~= old(self).elems().remove(num - start));
            return num;
        }
        let mut sub = self.tree.take().unwrap();
        proof {
            sub.l.lemma_wf();
            sub.r.lemma_wf();
        }
        let ghost a = sub.l.elems();
        let ghost b = sub.r.elems();
        if num < sub.l.range.end {
            if sub.l.tree.is_none() && sub.l.range.start + 1 == sub.l.range.end {
                let v = sub.l.range.start;
                let TheTreeSub { l: _, r } = *sub;
                let ghost rr = r;
                self.range = r.range;
                self.tree = r.tree;
                proof {
                    self.lemma_same_shape(rr);
                }
                assert(self.elems() =~= (a + b).remove(0));
                return v;
            }
            let v = sub.l.take(num);
            proof {
                sub.l.lemma_wf();
            }
            self.range.start = sub.l.range.start;
            self.range.end = (sub.l.range.end as i128 + (sub.r.range.end as i128
                - sub.r.range.start as i128)) as i64;
            self.tree = Some(sub);
            assert(self.elems() =~= (a + b).remove(num - old(self).range.start));
            self.rebalance();
            v
        } else {
            let rnum = (num as i128 - sub.l.range.end as i128 + sub.r.range.start as i128) as i64;
            if sub.r.tree.is_none() && sub.r.range.start + 1 == sub.r.range.end {
                let v = sub.r.range.start;
                let TheTreeSub { l, r: _ } = *sub;
                let ghost ll = l;
                self.range = l.range;
                self.tree = l.tree;
                proof {
                    self.lemma_same_shape(ll);
                }
                assert(self.elems() =~= (a + b).remove(a.len() as int));
                return v;
            }
            let v = sub.r.take(rnum);
            proof {
                sub.r.lemma_wf();
            }
            self.range.end = (sub.l.range.end as i128 + (sub.r.range.end as i128
                - sub.r.range.start as i128)) as i64;
            self.tree = Some(sub);
            assert(self.elems() =~= (a + b).remove(num - old(self).range.start));
            self.rebalance();
            v
        }
    }

    /// A copy of `t` under another side's name.
    fn renamed(t: TheTree, lr: TheTreeLR) -> (r: TheTree)
        ensures
            r.range == t.range,
            r.tree == t.tree,
            r.lr == lr,
            r.wf() == t.wf(),
            r.elems() == t.elems(),
            r.top() == t.top(),
    {
        let r = TheTree { range: t.range, tree: t.tree, lr };
        proof {
            r.lemma_same_shape(t);
        }
        r
    }

    /// Joins two well-formed, ordered, non-empty subtrees under a new node.
    fn join(l: TheTree, r: TheTree, lr: TheTreeLR) -> (t: TheTree)
        requires
            l.wf(),
            r.wf(),
            l.count() > 0,
            r.count() > 0,
            l.top() <= r.range.start,
        ensures
            t.wf(),
            t.lr == lr,
            t.range.start == l.range.start,
            t.count() == l.count() + r.count(),
            t.elems() == l.elems() + r.elems(),
            t.top() == r.top(),
    {
        proof {
            l.lemma_wf();
            r.lemma_wf();
        }
        let start = l.range.start;
        let end = (l.range.end as i128 + (r.range.end as i128 - r.range.start as i128)) as i64;
        let l = TheTree::renamed(l, TheTreeLR::L);
        let r = TheTree::renamed(r, TheTreeLR::R);
        TheTree { range: start..end, tree: Some(Box::new(TheTreeSub { l, r })), lr }
    }

    /// Moves a leaf across when one child is a leaf and the other holds a
    /// leaf beside a subtree on the far side, which keeps the tree from
    /// growing along one edge.
    fn rebalance(&mut self)
        requires
            old(self).wf(),
        ensures
            final(self).wf(),
            final(self).lr == old(self).lr,
            final(self).range == old(self).range,
            final(self).elems() == old(self).elems(),
            final(self).top() == old(self).top(),
    {
        let (to_left, to_right) = match &self.tree {
            Some(sub) => (
                sub.l.tree.is_none() && match &sub.r.tree {
                    Some(x) => x.l.tree.is_none() && x.r.tree.is_some(),
                    None => false,
                },
                sub.r.tree.is_none() && match &sub.l.tree {
                    Some(x) => x.r.tree.is_none() && x.l.tree.is_some(),
                    None => false,
                },
            ),
            None => (false, false),
        };
        if !to_left && !to_right {
            return;
        }
        let ghost t0 = *self;
        proof {
            t0.lemma_unfold();
        }
        let sub = self.tree.take().unwrap();
        let TheTreeSub { l, r } = *sub;
        if to_left {
            // (a, (b, c)) becomes ((a, b), c)
            let ghost rr = r;
            proof {
                rr.lemma_unfold();
            }
            let TheTreeSub { l: b, r: c } = *r.tree.unwrap();
            proof {
                l.lemma_wf();
                b.lemma_wf();
                c.lemma_wf();
            }
            let ghost (ea, eb, ec) = (l.elems(), b.elems(), c.elems());
            let y = TheTree::join(l, b, TheTreeLR::L);
            let c = TheTree::renamed(c, TheTreeLR::R);
            self.tree = Some(Box::new(TheTreeSub { l: y, r: c }));
            assert(ea + (eb + ec) =~= (ea + eb) + ec);
        } else {
            // ((c, b), a) becomes (c, (b, a))
            let ghost ll = l;
            proof {
                ll.lemma_unfold();
            }
            let TheTreeSub { l: c, r: b } = *l.tree.unwrap();
            proof {
                r.lemma_wf();
                b.lemma_wf();
                c.lemma_wf();
            }
            let ghost (ec, eb, ea) = (c.elems(), b.elems(), r.elems());
            let y = TheTree::join(b, r, TheTreeLR::R);
            let c = TheTree::renamed(c, TheTreeLR::L);
            self.tree = Some(Box::new(TheTreeSub { l: c, r: y }));
            assert((ec + eb) + ea =~= ec + (eb + ea));
        }
    }
}

/// The name of a node's side.
spec fn lr_text(lr: TheTreeLR) -> Seq<char> {
    match lr {
        TheTreeLR::Root => "Root"@,
        TheTreeLR::L => "L"@,
        TheTreeLR::R => "R"@,
    }
}

/// A range written as `start..end`.
spec fn range_text(r: Range<i64>) -> Seq<char> {
    decimal(r.start as int) + ".."@ + decimal(r.end as int)
}

/// `tab` unless the line was just started by the caller.
spec fn tab_text(tab: Seq<char>, lf: bool) -> Seq<char> {
    if lf {
        Seq::empty()
    } else {
        tab
    }
}

/// The first line of a node's text: its side and its range.
spec fn head_text(t: TheTree, tab: Seq<char>, lf: bool) -> Seq<char> {
    tab_text(tab, lf) + lr_text(t.lr) + " (range: "@ + range_text(t.range) + ")"@
}

/// The text of a node and, indented one step further on the following
/// lines, of its children.
spec fn tree_text(t: TheTree, tab: Seq<char>, lf: bool) -> Seq<char>
    decreases t,
{
    let head = head_text(t, tab, lf);
    match t.tree {
        None => head,
        Some(sub) => head + "\n"@ + tab + "l: "@ + tree_text(sub.l, tab + "|  "@, true) + "\n"@
            + tab + "r: "@ + tree_text(sub.r, tab + "|  "@, true),
    }
}

proof fn lemma_concat_assoc(a: Seq<char>, b: Seq<char>, c: Seq<char>)
    ensures
        (a + b) + c == a + (b + c),
{
    assert((a + b) + c =~= a + (b + c));
}

fn lr_str(lr: TheTreeLR) -> (r: &'static str)
    ensures
        r@ == lr_text(lr),
{
    match lr {
        TheTreeLR::Root => "Root",
        TheTreeLR::L => "L",
        TheTreeLR::R => "R",
    }
}

fn show_tab(out: &mut String, tab: &str, lf: bool)
    ensures
        final(out)@ == old(out)@ + tab_text(tab@, lf),
{
    if !lf {
        out.append(tab);
    } else {
        assert(out@ =~= out@ + tab_text(tab@, lf));
    }
}

impl TheTree {
    /// Appends the first line of this node's text to `out`.
    fn show_head(&self, out: &mut String, tab: &str, lf: bool)
        ensures
            final(out)@ == old(out)@ + head_text(*self, tab@, lf),
    {
        let ghost start = out@;
        show_tab(out, tab, lf);
        out.append(lr_str(self.lr));
        out.append(" (range: ");
        let a = int_text(self.range.start);
        out.append(a.as_str());
        out.append("..");
        let b = int_text(self.range.end);
        out.append(b.as_str());
        out.append(")");
        assert(out@ =~= start + head_text(*self, tab@, lf));
    }

    /// Appends the text of this node and its children to `out`.
    fn show(&self, out: &mut String, tab: &str, lf: bool)
        ensures
            final(out)@ == old(out)@ + tree_text(*self, tab@, lf),
        decreases self,
    {
        let ghost start = out@;
        self.show_head(out, tab, lf);
        match &self.tree {
            None => {},
            Some(sub) => {
                let ghost mut acc = head_text(*self, tab@, lf);
                let mut ntab = tab.to_owned();
                ntab.append("|  ");
                let ghost nt = ntab@;
                out.append("\n");
                proof {
                    lemma_concat_assoc(start, acc, "\n"@);
                    acc = acc + "\n"@;
                }
                show_tab(out, tab, false);
                proof {
                    lemma_concat_assoc(start, acc, tab@);
                    acc = acc + tab@;
                }
                out.append("l: ");
                proof {
                    lemma_concat_assoc(start, acc, "l: "@);
                    acc = acc + "l: "@;
                }
                sub.l.show(out, ntab.as_str(), true);
                proof {
                    lemma_concat_assoc(start, acc, tree_text(sub.l, nt, true));
                    acc = acc + tree_text(sub.l, nt, true);
                }
                out.append("\n");
                proof {
                    lemma_concat_assoc(start, acc, "\n"@);
                    acc = acc + "\n"@;
                }
                show_tab(out, tab, false);
                proof {
                    lemma_concat_assoc(start, acc, tab@);
                    acc = acc + tab@;
                }
                out.append("r: ");
                proof {
                    lemma_concat_assoc(start, acc, "r: "@);
                    acc = acc + "r: "@;
                }
                sub.r.show(out, ntab.as_str(), true);
                proof {
                    lemma_concat_assoc(start, acc, tree_text(sub.r, nt, true));
                    acc = acc + tree_text(sub.r, nt, true);
                    assert(acc == tree_text(*self, tab@, lf));
                }
            },
        }
    }
}

impl RangesTree {
    /// The text of the sampler: its rank range, then its tree with one
    /// node per line.
    pub closed spec fn text(&self) -> Seq<char> {
        "RangesTree (size: "@ + range_text(self.size) + ") "@ + tree_text(self.tree, "  "@, true)
    }

    /// Writes the sampler as text, one tree node per line.
    pub fn show(&self) -> (r: String)
        ensures
            r@ == self.text(),
    {
        let mut out = String::new();
        out.append("RangesTree (size: ");
        let a = int_text(self.size.start);
        out.append(a.as_str());
        out.append("..");
        let b = int_text(self.size.end);
        out.append(b.as_str());
        out.append(") ");
        self.tree.show(&mut out, "  ", true);
        assert(out@ =~= self.text());
        out
    }

    pub fn new(min: i64, max: i64) -> (s: Self)
        requires
            min <= max,
        ensures
            s.wf(),
            s.lo() == min,
            s.pool() == span(min as int, max as int),
    {
        Self { size: min..max, tree: TheTree::new(min..max) }
    }
}

impl RandgeTake for RangesTree {
    closed spec fn wf(&self) -> bool {
        &&& self.tree.wf()
        &&& self.size.start <= self.size.end
        &&& self.tree.count() == self.size.end - self.size.start
    }

    closed spec fn lo(&self) -> int {
        self.size.start as int
    }

    open spec fn pool_after(&self, k: int) -> Seq<int> {
        self.pool().remove(k)
    }

    closed spec fn pool(&self) -> Seq<int> {
        self.tree.elems()
    }

    fn range(&self) -> (r: Range<i64>) {
        proof {
            self.tree.lemma_wf();
        }
        self.size.start..self.size.end
    }

    fn take(&mut self, num: i64) -> (v: i64)
        ensures
            final(self).pool() == old(self).pool().remove(num - old(self).lo()),
            increasing(final(self).pool()),
    {
        proof {
            self.tree.lemma_wf();
            lemma_increasing_distinct(self.tree.elems());
            lemma_remove_contains(self.tree.elems(), num - self.size.start);
        }
        self.size.end = self.size.end - 1;
        let tnum = (num as i128 - self.size.start as i128 + self.tree.range.start as i128) as i64;
        let v = self.tree.take(tnum);
        proof {
            self.tree.lemma_wf();
        }
        v
    }
}

} // verus!
