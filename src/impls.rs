//! The sampler abstraction and the iterator that drives it.
use vstd::prelude::*;
use std::ops::Range;

use crate::fn_rand::FnRand;
use crate::RandgeError;

pub use crate::barrel::RangesBarrel;
pub use crate::linear::RangesLinear;
pub use crate::tree::RangesTree;

verus! {

/// The values `lo, lo + 1, ..., hi - 1`, in increasing order.
pub open spec fn span(lo: int, hi: int) -> Seq<int> {
    Seq::new((hi - lo) as nat, |i: int| lo + i)
}

/// Each element of `s` is smaller than the next.
pub open spec fn increasing(s: Seq<int>) -> bool {
    forall|i: int, j: int| 0 <= i < j < s.len() ==> s[i] < s[j]
}

/// Removing the element at index `k` of a sequence without repeats removes
/// exactly that value.
pub(crate) proof fn lemma_remove_contains(s: Seq<int>, k: int)
    requires
        s.no_duplicates(),
        0 <= k < s.len(),
    ensures
        forall|x: int| #[trigger] s.remove(k).contains(x) <==> (s.contains(x) && x != s[k]),
{
    assert forall|x: int| #[trigger] s.remove(k).contains(x) <==> (s.contains(x) && x != s[k]) by {
        if s.remove(k).contains(x) {
            let i = choose|i: int| 0 <= i < s.remove(k).len() && s.remove(k)[i] == x;
            if i < k {
                assert(s[i] == x);
            } else {
                assert(s[i + 1] == x);
            }
        }
        if s.contains(x) && x != s[k] {
            let i = choose|i: int| 0 <= i < s.len() && s[i] == x;
            if i < k {
                assert(s.remove(k)[i] == x);
            } else {
                assert(s.remove(k)[i - 1] == x);
            }
        }
    }
}

/// An increasing sequence has no repeats.
pub(crate) proof fn lemma_increasing_distinct(s: Seq<int>)
    requires
        increasing(s),
    ensures
        s.no_duplicates(),
{
    assert forall|i: int, j: int| 0 <= i < s.len() && 0 <= j < s.len() && i != j implies s[i]
        != s[j] by {
        if i < j {
            assert(s[i] < s[j]);
        } else {
            assert(s[j] < s[i]);
        }
    }
}

/// In an increasing sequence of integers, elements `j - i` places apart
/// differ by at least `j - i`.
pub(crate) proof fn lemma_increasing_gap(s: Seq<int>, i: int, j: int)
    requires
        increasing(s),
        0 <= i <= j < s.len(),
    ensures
        s[j] - s[i] >= j - i,
    decreases j - i,
{
    if i < j {
        lemma_increasing_gap(s, i, j - 1);
        assert(s[j - 1] < s[j]);
    }
}

/// A store of the values still available in a domain, which hands out and
/// removes a value given its rank.
///
/// Ranks run over `[lo(), lo() + pool().len())`; the rank `r` names the
/// value `pool()[r - lo()]`.
pub trait RandgeTake: Sized {
    /// The store's internal invariant.
    spec fn wf(&self) -> bool;

    /// The first rank, which is also the low bound of the domain.
    spec fn lo(&self) -> int;

    /// The values still available, in rank order.
    spec fn pool(&self) -> Seq<int>;

    /// The values still available, in rank order, after the value at
    /// index `k` of `pool()` is taken.
    spec fn pool_after(&self, k: int) -> Seq<int>;

    /// The ranks that `take` accepts now.
    fn range(&self) -> (r: Range<i64>)
        requires
            self.wf(),
        ensures
            r.start == self.lo(),
            r.end == self.lo() + self.pool().len(),
    ;

    /// Removes and returns the value of rank `num`.
    fn take(&mut self, num: i64) -> (v: i64)
        requires
            old(self).wf(),
            old(self).lo() <= num < old(self).lo() + old(self).pool().len(),
        ensures
            final(self).wf(),
            final(self).lo() == old(self).lo(),
            v == old(self).pool()[num - old(self).lo()],
            old(self).pool().contains(v as int),
            final(self).pool() == old(self).pool_after(num - old(self).lo()),
            removed(old(self).pool(), final(self).pool(), v as int),
    ;
}

/// The values of a vector of `i64`, as integers.
pub open spec fn ints(v: Seq<i64>) -> Seq<int> {
    v.map_values(|e: i64| e as int)
}

/// `after` is `before` with the single value `v` taken out.
pub open spec fn removed(before: Seq<int>, after: Seq<int>, v: int) -> bool {
    &&& after.len() == before.len() - 1
    &&& forall|x: int| #[trigger] after.contains(x) <==> (before.contains(x) && x != v)
}

/// `v` is a draw of `n` values from `pool`: distinct values of the pool,
/// and every value of the pool when `n` is the pool's size.
pub open spec fn drawn_from(pool: Seq<int>, n: int, v: Seq<int>) -> bool {
    &&& v.len() == n
    &&& v.no_duplicates()
    &&& forall|i: int| 0 <= i < v.len() ==> pool.contains(#[trigger] v[i])
    &&& n == pool.len() ==> forall|x: int| pool.contains(x) ==> #[trigger] v.contains(x)
}

/// A finite sequence of distinct values drawn from a sampler.
///
/// Each step asks the randomness source for a rank in the sampler's current
/// range and yields the value the sampler hands out for it. The ghost fields
/// record the session: the values yielded so far, the pool the session
/// started from, and how many values it will yield in all.
pub struct RandgeIter<F, R> {
    len: usize,
    take: R,
    rand: F,
    drawn: Ghost<Seq<int>>,
    initial: Ghost<Seq<int>>,
    total: Ghost<int>,
}

impl<F: FnRand, R: RandgeTake> RandgeIter<F, R> {
    /// The iterator's invariant: the sampler is well-formed and holds at
    /// least as many values as are still to be drawn, and the values drawn
    /// so far and the values left split the starting pool.
    pub closed spec fn wf(&self) -> bool {
        &&& self.take.wf()
        &&& self.len <= self.take.pool().len()
        &&& self.drawn@.len() + self.len == self.total@
        &&& self.drawn@.len() + self.take.pool().len() == self.initial@.len()
        &&& self.drawn@.no_duplicates()
        &&& forall|i: int|
            0 <= i < self.drawn@.len() ==> self.initial@.contains(#[trigger] self.drawn@[i])
                && !self.take.pool().contains(self.drawn@[i])
        &&& forall|x: int| #[trigger] self.take.pool().contains(x) ==> self.initial@.contains(x)
        &&& forall|x: int|
            #[trigger] self.initial@.contains(x) ==> self.take.pool().contains(x)
                || self.drawn@.contains(x)
    }

    /// The sampler the values come from.
    pub closed spec fn sampler(&self) -> R {
        self.take
    }

    /// The randomness source the ranks are drawn from.
    pub closed spec fn source(&self) -> F {
        self.rand
    }

    /// How many values are still to be drawn.
    pub closed spec fn remaining(&self) -> int {
        self.len as int
    }

    /// The values drawn so far, in order.
    pub closed spec fn drawn(&self) -> Seq<int> {
        self.drawn@
    }

    /// The pool the session started from.
    pub closed spec fn initial(&self) -> Seq<int> {
        self.initial@
    }

    /// How many values the session yields in all (fewer once it was cut
    /// short by `nth` or by a bad rank).
    pub closed spec fn total(&self) -> int {
        self.total@
    }

    /// The values not drawn yet, in the sampler's rank order.
    pub open spec fn pool(&self) -> Seq<int> {
        self.sampler().pool()
    }

    /// The first rank of the sampler's range.
    pub open spec fn lo(&self) -> int {
        self.sampler().lo()
    }

    /// What the invariant says of the session so far: the values drawn are
    /// distinct and come from the starting pool, none of them is still
    /// available, every value of the starting pool is drawn or available,
    /// and exactly `total() - drawn().len()` values are still to come. When
    /// a session meant to draw its whole pool is over, the values drawn are
    /// exactly the values of the starting pool.
    pub proof fn lemma_history(&self)
        requires
            self.wf(),
        ensures
            self.drawn().no_duplicates(),
            forall|i: int|
                0 <= i < self.drawn().len() ==> self.initial().contains(#[trigger] self.drawn()[i])
                    && !self.pool().contains(self.drawn()[i]),
            forall|x: int| #[trigger] self.pool().contains(x) ==> self.initial().contains(x),
            forall|x: int|
                #[trigger] self.initial().contains(x) ==> self.pool().contains(x)
                    || self.drawn().contains(x),
            self.remaining() == self.total() - self.drawn().len(),
            self.remaining() >= 0,
            self.drawn().len() + self.pool().len() == self.initial().len(),
            self.total() == self.initial().len() && self.remaining() == 0 ==> self.drawn().to_set()
                == self.initial().to_set(),
    {
        if self.total() == self.initial().len() && self.remaining() == 0 {
            assert forall|x: int| #[trigger] self.drawn().to_set().contains(x) <==> self.initial().to_set().contains(x) by {
                if self.initial().contains(x) && self.pool().contains(x) {
                    let i = choose|i: int| 0 <= i < self.pool().len() && self.pool()[i] == x;
                    assert(self.pool().len() == 0);
                }
                if self.drawn().contains(x) {
                    let i = choose|i: int| 0 <= i < self.drawn().len() && self.drawn()[i] == x;
                    assert(self.initial().contains(self.drawn()[i]));
                }
            }
            assert(self.drawn().to_set() =~= self.initial().to_set());
        }
    }

    pub fn new(len: usize, take: R, rand: F) -> (it: Self)
        requires
            take.wf(),
            len <= take.pool().len(),
        ensures
            it.wf(),
            it.sampler() == take,
            it.source() == rand,
            it.remaining() == len,
            it.drawn() == Seq::<int>::empty(),
            it.initial() == take.pool(),
            it.total() == len,
    {
        Self {
            len,
            take,
            rand,
            drawn: Ghost(Seq::empty()),
            initial: Ghost(take.pool()),
            total: Ghost(len as int),
        }
    }

    /// One step driven by a given rank instead of the randomness source:
    /// the value of that rank, or `RandomOutOfRange` (which ends the
    /// sequence) if the rank is outside the sampler's current range.
    pub fn next_from(&mut self, rank: i64) -> (r: Option<Result<i64, RandgeError>>)
        requires
            old(self).wf(),
        ensures
            final(self).wf(),
            final(self).lo() == old(self).lo(),
            final(self).initial() == old(self).initial(),
            final(self).source() == old(self).source(),
            old(self).remaining() == 0 ==> r.is_none() && *final(self) == *old(self),
            old(self).remaining() > 0 && old(self).lo() <= rank < old(self).lo() + old(
                self,
            ).pool().len() ==> (r matches Some(Ok(v)) && {
                &&& v == old(self).pool()[rank - old(self).lo()]
                &&& old(self).initial().contains(v as int)
                &&& !old(self).drawn().contains(v as int)
                &&& final(self).pool() == old(self).sampler().pool_after(rank - old(self).lo())
                &&& removed(old(self).pool(), final(self).pool(), v as int)
                &&& final(self).remaining() == old(self).remaining() - 1
                &&& final(self).drawn() == old(self).drawn().push(v as int)
                &&& final(self).total() == old(self).total()
            }),
            old(self).remaining() > 0 && !(old(self).lo() <= rank < old(self).lo() + old(
                self,
            ).pool().len()) ==> {
                &&& r == Some(Err::<i64, RandgeError>(RandgeError::RandomOutOfRange))
                &&& final(self).remaining() == 0
                &&& final(self).pool() == old(self).pool()
                &&& final(self).drawn() == old(self).drawn()
                &&& final(self).total() == old(self).drawn().len()
            },
    {
        if self.len == 0 {
            return None;
        }
        let range = self.take.range();
        if rank < range.start || rank >= range.end {
            self.len = 0;
            self.total = Ghost(self.drawn@.len() as int);
            return Some(Err(RandgeError::RandomOutOfRange));
        }
        let ghost before = self.take.pool();
        let ghost d0 = self.drawn@;
        self.len = self.len - 1;
        let v = self.take.take(rank);
        self.drawn = Ghost(self.drawn@.push(v as int));
        proof {
            let after = self.take.pool();
            let d = self.drawn@;
            assert(d[d0.len() as int] == v);
            assert forall|i: int| 0 <= i < d.len() implies self.initial@.contains(#[trigger] d[i])
                && !after.contains(d[i]) by {
                if i < d0.len() {
                    assert(d[i] == d0[i]);
                }
            }
            assert forall|i: int, j: int| 0 <= i < d.len() && 0 <= j < d.len() && i != j implies d[i]
                != d[j] by {
                if i < d0.len() && j < d0.len() {
                    assert(d[i] == d0[i] && d[j] == d0[j]);
                } else if i < d0.len() {
                    assert(d[i] == d0[i] && !before.contains(d0[i]));
                } else if j < d0.len() {
                    assert(d[j] == d0[j] && !before.contains(d0[j]));
                }
            }
            assert forall|x: int| #[trigger] self.initial@.contains(x) implies after.contains(x)
                || d.contains(x) by {
                if d0.contains(x) {
                    let i = choose|i: int| 0 <= i < d0.len() && d0[i] == x;
                    assert(d[i] == x);
                } else if x == v {
                    assert(d[d0.len() as int] == x);
                }
            }
        }
        Some(Ok(v))
    }

    /// Draws the next value: `None` once the sequence is exhausted,
    /// `Err(RandomOutOfRange)` (which ends the sequence) if the randomness
    /// source returned a rank outside the range it was asked for.
    pub fn next(&mut self) -> (r: Option<Result<i64, RandgeError>>)
        requires
            old(self).wf(),
        ensures
            final(self).wf(),
            final(self).lo() == old(self).lo(),
            final(self).initial() == old(self).initial(),
            r.is_none() <==> old(self).remaining() == 0,
            r.is_none() ==> *final(self) == *old(self),
            r matches Some(Ok(v)) ==> {
                &&& old(self).pool().contains(v as int)
                &&& old(self).initial().contains(v as int)
                &&& !old(self).drawn().contains(v as int)
                &&& exists|k: int|
                    0 <= k < old(self).pool().len() && old(self).pool()[k] == v
                        && final(self).pool() == old(self).sampler().pool_after(k)
                &&& final(self).remaining() == old(self).remaining() - 1
                &&& removed(old(self).pool(), final(self).pool(), v as int)
                &&& final(self).drawn() == old(self).drawn().push(v as int)
                &&& final(self).total() == old(self).total()
            },
            r matches Some(Err(e)) ==> {
                &&& e == RandgeError::RandomOutOfRange
                &&& final(self).remaining() == 0
                &&& final(self).pool() == old(self).pool()
                &&& final(self).drawn() == old(self).drawn()
                &&& final(self).total() == old(self).drawn().len()
            },
    {
        if self.len == 0 {
            return None;
        }
        let range = self.take.range();
        let rank = self.rand.rand(range);
        proof {
            self.lemma_history();
        }
        let ghost mid = *self;
        assert(mid.sampler() == old(self).sampler());
        let r = self.next_from(rank);
        proof {
            if let Some(Ok(v)) = r {
                let k = rank - mid.lo();
                assert(0 <= k < old(self).pool().len() && old(self).pool()[k] == v
                    && final(self).pool() == old(self).sampler().pool_after(k));
            }
        }
        r
    }

    /// `(remaining, Some(remaining))`: the length is always known exactly.
    pub fn size_hint(&self) -> (r: (usize, Option<usize>))
        requires
            self.wf(),
        ensures
            r.0 == self.remaining(),
            r.0 == self.total() - self.drawn().len(),
            r.1 == Some(r.0),
    {
        (self.len, Some(self.len))
    }

    /// The number of values still to be drawn.
    pub fn count(self) -> (r: usize)
        ensures
            r == self.remaining(),
    {
        self.len
    }

    /// Draws one value and drops the rest of the sequence.
    pub fn last(self) -> (r: Option<Result<i64, RandgeError>>)
        requires
            self.wf(),
        ensures
            r.is_none() <==> self.remaining() == 0,
            r matches Some(Ok(v)) ==> self.pool().contains(v as int) && !self.drawn().contains(
                v as int,
            ),
            r matches Some(Err(e)) ==> e == RandgeError::RandomOutOfRange,
    {
        let mut it = self;
        if it.len > 0 {
            it.total = Ghost(it.drawn@.len() + 1int);
            it.len = 1;
            it.next()
        } else {
            None
        }
    }

    /// Skips `n` values and draws the next one; `None` (and an exhausted
    /// sequence) if fewer than `n + 1` values were left.
    pub fn nth(&mut self, n: usize) -> (r: Option<Result<i64, RandgeError>>)
        requires
            old(self).wf(),
        ensures
            final(self).wf(),
            final(self).initial() == old(self).initial(),
            r.is_none() <==> old(self).remaining() <= n,
            r.is_none() ==> final(self).remaining() == 0 && final(self).pool() == old(self).pool()
                && final(self).drawn() == old(self).drawn(),
            r matches Some(Ok(v)) ==> {
                &&& old(self).pool().contains(v as int)
                &&& !old(self).drawn().contains(v as int)
                &&& final(self).remaining() == old(self).remaining() - n - 1
                &&& removed(old(self).pool(), final(self).pool(), v as int)
                &&& final(self).drawn() == old(self).drawn().push(v as int)
            },
            r matches Some(Err(e)) ==> {
                &&& e == RandgeError::RandomOutOfRange
                &&& final(self).remaining() == 0
            },
    {
        if n >= self.len {
            self.len = 0;
            self.total = Ghost(self.drawn@.len() as int);
            None
        } else {
            self.len = self.len - n;
            self.total = Ghost(self.total@ - n as int);
            self.next()
        }
    }

    /// Draws every remaining value, in order.
    ///
    /// The values are distinct and come from the sampler's pool; when the
    /// whole pool was to be drawn, they are exactly the pool's values. When
    /// nothing is left to draw, the result is an empty vector and the
    /// randomness source is not asked.
    pub fn collect(self) -> (r: Result<Vec<i64>, RandgeError>)
        requires
            self.wf(),
        ensures
            self.remaining() == 0 ==> (r matches Ok(v) && v@.len() == 0),
            r matches Ok(v) ==> drawn_from(self.pool(), self.remaining(), ints(v@)),
            r matches Err(e) ==> e == RandgeError::RandomOutOfRange,
    {
        let ghost pool0 = self.pool();
        let ghost n0 = self.remaining();
        let mut it = self;
        let mut out: Vec<i64> = Vec::new();
        while it.len > 0
            invariant
                it.wf(),
                n0 == self.remaining(),
                it.remaining() + out@.len() == n0,
                n0 <= pool0.len(),
                it.pool().len() == pool0.len() - out@.len(),
                ints(out@).no_duplicates(),
                forall|i: int| 0 <= i < out@.len() ==> pool0.contains(#[trigger] out@[i] as int),
                forall|i: int|
                    0 <= i < out@.len() ==> !it.pool().contains(#[trigger] out@[i] as int),
                forall|x: int| #[trigger] it.pool().contains(x) ==> pool0.contains(x),
                forall|x: int|
                    pool0.contains(x) ==> it.pool().contains(x) || #[trigger] ints(
                        out@,
                    ).contains(x),
            decreases it.len,
        {
            let ghost before = it.pool();
            let ghost out0 = out@;
            match it.next() {
                Some(Ok(v)) => {
                    out.push(v);
                    proof {
                        assert(ints(out@) =~= ints(out0).push(v as int));
                        assert forall|i: int| 0 <= i < out@.len() implies !it.pool().contains(
                            #[trigger] out@[i] as int,
                        ) by {
                            if i < out0.len() {
                                assert(out@[i] == out0[i]);
                            }
                        }
                        assert forall|i: int| 0 <= i < out@.len() implies pool0.contains(
                            #[trigger] out@[i] as int,
                        ) by {
                            if i < out0.len() {
                                assert(out@[i] == out0[i]);
                            }
                        }
                        assert forall|i: int, j: int|
                            0 <= i < ints(out@).len() && 0 <= j < ints(out@).len() && i != j
                            implies ints(out@)[i] != ints(out@)[j] by {
                            if i < out0.len() && j < out0.len() {
                                assert(ints(out0)[i] == ints(out@)[i]);
                                assert(ints(out0)[j] == ints(out@)[j]);
                            } else if i < out0.len() {
                                assert(out@[i] == out0[i]);
                                assert(!before.contains(out0[i] as int));
                            } else if j < out0.len() {
                                assert(out@[j] == out0[j]);
                                assert(!before.contains(out0[j] as int));
                            }
                        }
                        assert forall|x: int| pool0.contains(x) implies it.pool().contains(x)
                            || #[trigger] ints(out@).contains(x) by {
                            if ints(out0).contains(x) {
                                let i = choose|i: int|
                                    0 <= i < ints(out0).len() && ints(out0)[i] == x;
                                assert(ints(out@)[i] == x);
                            } else if x == v {
                                assert(ints(out@)[out0.len() as int] == x);
                            }
                        }
                    }
                },
                Some(Err(e)) => {
                    return Err(e);
                },
                None => {},
            }
        }
        proof {
            assert forall|i: int| 0 <= i < ints(out@).len() implies pool0.contains(
                #[trigger] ints(out@)[i],
            ) by {
                assert(ints(out@)[i] == out@[i] as int);
            }
            if n0 == pool0.len() {
                assert forall|x: int| pool0.contains(x) implies #[trigger] ints(out@).contains(
                    x,
                ) by {
                    if it.pool().contains(x) {
                        // every value has been drawn, so no index can hold `x`
                        let i = choose|i: int| 0 <= i < it.pool().len() && it.pool()[i] == x;
                        assert(it.pool().len() == 0);
                    }
                }
            }
        }
        Ok(out)
    }
}

} // verus!
