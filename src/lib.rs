//! Random numbers drawn without repetition from a half-open integer range.
//!
//! A sampler keeps the values that are still available and maps a rank in
//! `[start, start + remaining)` to one of them, removing it. The iterator
//! asks a randomness source for a rank, hands it to the sampler and yields
//! the value that comes back.
use vstd::prelude::*;
use std::ops::Range;

mod barrel;
mod fn_rand;
pub mod impls;
mod linear;
mod tree;
mod utils;

pub use fn_rand::FnRand;
pub use impls::{RandgeIter, RandgeTake, RangesBarrel, RangesLinear, RangesTree};
use impls::{drawn_from, removed, span};

pub use utils::{abs, is_negative};

verus! {

/// Why a sampling session could not be set up or had to stop.
#[derive(Debug, Clone, Copy, PartialEq, Eq, Structural)]
pub enum RandgeError {
    /// The range holds no value (`start == end`).
    EmptyDomain,
    /// The requested count is negative.
    NegativeCount,
    /// The requested count exceeds the number of values in the range.
    CountExceedsDomain,
    /// The randomness source returned a rank outside the range it was asked for.
    RandomOutOfRange,
}

/// The smaller of two integers.
pub open spec fn min_int(a: int, b: int) -> int {
    if a <= b { a } else { b }
}

/// The larger of two integers.
pub open spec fn max_int(a: int, b: int) -> int {
    if a <= b { b } else { a }
}

/// What `check` returns for a range and a count: the error, or the draw
/// count together with the ordered bounds.
pub open spec fn check_spec(start: int, end: int, n: int) -> Result<(int, int, int), RandgeError> {
    let lo = min_int(start, end);
    let hi = max_int(start, end);
    if hi - lo == 0 {
        Err(RandgeError::EmptyDomain)
    } else if n < 0 {
        Err(RandgeError::NegativeCount)
    } else if hi - lo < n {
        Err(RandgeError::CountExceedsDomain)
    } else {
        Ok((min_int(hi - lo, n), lo, hi))
    }
}

/// Orders the bounds of `range` and checks that `n` values can be drawn
/// from it. On success returns `(draw count, low bound, high bound)`.
pub fn check(range: Range<i64>, n: i64) -> (r: Result<(i64, i64, i64), RandgeError>)
    ensures
        match (r, check_spec(range.start as int, range.end as int, n as int)) {
            (Ok((d, lo, hi)), Ok((sd, slo, shi))) => d == sd && lo == slo && hi == shi,
            (Err(e), Err(se)) => e == se,
            _ => false,
        },
{
    let (min, max) = if range.start <= range.end {
        (range.start, range.end)
    } else {
        (range.end, range.start)
    };
    let size = abs(max as i128 - min as i128);
    if size == 0 {
        return Err(RandgeError::EmptyDomain);
    }
    if is_negative(n) {
        return Err(RandgeError::NegativeCount);
    }
    if size < n as i128 {
        return Err(RandgeError::CountExceedsDomain);
    }
    let len: i64 = if size < n as i128 { size as i64 } else { n };
    Ok((len, min, max))
}

/// The values of `[lo, hi)` as a set.
pub open spec fn domain(lo: int, hi: int) -> Set<int> {
    Set::new(|x: int| lo <= x < hi)
}

/// `x` is one of `lo, ..., hi - 1` exactly when `lo <= x < hi`.
pub proof fn lemma_span_contains(lo: int, hi: int, x: int)
    requires
        lo <= hi,
    ensures
        span(lo, hi).contains(x) <==> lo <= x < hi,
{
    if lo <= x < hi {
        assert(span(lo, hi)[x - lo] == x);
    }
}

/// No repeats: draining a session over `(start, end, n)` yields values
/// that are pairwise distinct, so as many distinct values as draws.
pub proof fn lemma_no_repeats(start: i64, end: i64, n: i64, v: Seq<int>)
    requires
        check_spec(start as int, end as int, n as int) matches Ok((d, lo, hi)) && drawn_from(
            span(lo, hi),
            d,
            v,
        ),
    ensures
        v.no_duplicates(),
        v.to_set().len() == v.len(),
{
    v.unique_seq_to_set();
}

/// Domain membership: every value a session over `(start, end, n)` yields
/// lies between the smaller bound (included) and the larger (excluded).
pub proof fn lemma_in_domain(start: i64, end: i64, n: i64, v: Seq<int>)
    requires
        check_spec(start as int, end as int, n as int) matches Ok((d, lo, hi)) && drawn_from(
            span(lo, hi),
            d,
            v,
        ),
    ensures
        forall|i: int|
            0 <= i < v.len() ==> min_int(start as int, end as int) <= #[trigger] v[i] < max_int(
                start as int,
                end as int,
            ),
{
    let lo = min_int(start as int, end as int);
    let hi = max_int(start as int, end as int);
    assert forall|i: int| 0 <= i < v.len() implies lo <= #[trigger] v[i] < hi by {
        assert(span(lo, hi).contains(v[i]));
        lemma_span_contains(lo, hi, v[i]);
    }
}

/// Count: a session over `(start, end, n)` that `check` accepts yields
/// exactly `min(|end - start|, n)` values.
pub proof fn lemma_count(start: i64, end: i64, n: i64, v: Seq<int>)
    requires
        check_spec(start as int, end as int, n as int) matches Ok((d, lo, hi)) && drawn_from(
            span(lo, hi),
            d,
            v,
        ),
    ensures
        v.len() == min_int(
            max_int(start as int, end as int) - min_int(start as int, end as int),
            n as int,
        ),
{
}

/// Full draw: asking for as many values as the range holds is accepted, and
/// the values drawn are then exactly the values of the range, whichever
/// sampler drew them.
pub proof fn lemma_full_draw(start: i64, end: i64, n: i64, v: Seq<int>)
    requires
        start != end,
        n == max_int(start as int, end as int) - min_int(start as int, end as int),
        drawn_from(
            span(min_int(start as int, end as int), max_int(start as int, end as int)),
            n as int,
            v,
        ),
    ensures
        check_spec(start as int, end as int, n as int) == Ok::<(int, int, int), RandgeError>(
            (n as int, min_int(start as int, end as int), max_int(start as int, end as int)),
        ),
        v.to_set() == domain(min_int(start as int, end as int), max_int(start as int, end as int)),
{
    let lo = min_int(start as int, end as int);
    let hi = max_int(start as int, end as int);
    assert forall|x: int| #[trigger] v.to_set().contains(x) <==> domain(lo, hi).contains(x) by {
        lemma_span_contains(lo, hi, x);
        if v.contains(x) {
            let i = choose|i: int| 0 <= i < v.len() && v[i] == x;
            assert(span(lo, hi).contains(v[i]));
        }
    }
    assert(v.to_set() =~= domain(lo, hi));
}

/// No repeats, draw by draw: at any point of a session the values drawn so
/// far are pairwise distinct (and `next` never yields one of them again).
pub proof fn lemma_session_no_repeats<F: FnRand, R: RandgeTake>(it: RandgeIter<F, R>)
    requires
        it.wf(),
    ensures
        it.drawn().no_duplicates(),
        it.drawn().to_set().len() == it.drawn().len(),
{
    it.lemma_history();
    it.drawn().unique_seq_to_set();
}

/// Domain membership, draw by draw: in a session started over `[lo, hi)`,
/// every value drawn so far and every value that can still be drawn lies
/// in `[lo, hi)`.
pub proof fn lemma_session_in_domain<F: FnRand, R: RandgeTake>(
    it: RandgeIter<F, R>,
    lo: int,
    hi: int,
)
    requires
        it.wf(),
        lo <= hi,
        it.initial() == span(lo, hi),
    ensures
        forall|i: int| 0 <= i < it.drawn().len() ==> lo <= #[trigger] it.drawn()[i] < hi,
        forall|x: int| #[trigger] it.pool().contains(x) ==> lo <= x < hi,
{
    it.lemma_history();
    assert forall|i: int| 0 <= i < it.drawn().len() implies lo <= #[trigger] it.drawn()[i] < hi by {
        lemma_span_contains(lo, hi, it.drawn()[i]);
    }
    assert forall|x: int| #[trigger] it.pool().contains(x) implies lo <= x < hi by {
        lemma_span_contains(lo, hi, x);
    }
}

/// Count, draw by draw: exactly `total() - drawn().len()` further calls of
/// `next` yield a value, and `size_hint` reports that number; a session
/// from an entry point has `total() == min(|end - start|, n)`.
pub proof fn lemma_session_count<F: FnRand, R: RandgeTake>(it: RandgeIter<F, R>)
    requires
        it.wf(),
    ensures
        it.remaining() == it.total() - it.drawn().len(),
        it.drawn().len() <= it.total(),
{
    it.lemma_history();
}

/// Full draw, draw by draw: once a session over `[lo, hi)` that was to
/// draw `hi - lo` values is exhausted, the values drawn are exactly the
/// values of `[lo, hi)`.
pub proof fn lemma_session_full_draw<F: FnRand, R: RandgeTake>(
    it: RandgeIter<F, R>,
    lo: int,
    hi: int,
)
    requires
        it.wf(),
        lo <= hi,
        it.initial() == span(lo, hi),
        it.total() == hi - lo,
        it.remaining() == 0,
    ensures
        it.drawn().to_set() == domain(lo, hi),
{
    it.lemma_history();
    assert forall|x: int| #[trigger] it.drawn().to_set().contains(x) <==> domain(lo, hi).contains(
        x,
    ) by {
        lemma_span_contains(lo, hi, x);
        assert(it.initial().to_set().contains(x) <==> it.initial().contains(x));
    }
    assert(it.drawn().to_set() =~= domain(lo, hi));
}

/// The record of a sampler over `[lo, hi)`: `taken` holds the values
/// handed out so far, distinct and in `[lo, hi)`, none of them still in
/// `pool`; every value of `pool` lies in `[lo, hi)`; and every value of
/// `[lo, hi)` is taken or still in `pool`.
pub open spec fn taken_record(lo: int, hi: int, taken: Seq<int>, pool: Seq<int>) -> bool {
    &&& taken.no_duplicates()
    &&& forall|i: int|
        0 <= i < taken.len() ==> lo <= #[trigger] taken[i] < hi && !pool.contains(taken[i])
    &&& forall|x: int| #[trigger] pool.contains(x) ==> lo <= x < hi
    &&& forall|x: int| lo <= x < hi ==> #[trigger] pool.contains(x) || taken.contains(x)
}

/// A fresh sampler over `[lo, hi)` (whose pool is `span(lo, hi)`) has
/// taken nothing.
pub proof fn lemma_taken_start(lo: int, hi: int)
    requires
        lo <= hi,
    ensures
        taken_record(lo, hi, Seq::empty(), span(lo, hi)),
{
    assert forall|x: int| #[trigger] span(lo, hi).contains(x) implies lo <= x < hi by {
        lemma_span_contains(lo, hi, x);
    }
    assert forall|x: int| lo <= x < hi implies #[trigger] span(lo, hi).contains(x) by {
        lemma_span_contains(lo, hi, x);
    }
}

/// One sampler step: the value `take` hands out (it comes from the pool and
/// the pool loses exactly it) lies in `[lo, hi)` and was not handed out
/// before; the record grows by that value. Once the pool is empty, the
/// values handed out are exactly the values of `[lo, hi)`.
pub proof fn lemma_taken_step(
    lo: int,
    hi: int,
    taken: Seq<int>,
    before: Seq<int>,
    after: Seq<int>,
    v: int,
)
    requires
        taken_record(lo, hi, taken, before),
        before.contains(v),
        removed(before, after, v),
    ensures
        lo <= v < hi,
        !taken.contains(v),
        taken_record(lo, hi, taken.push(v), after),
        after.len() == 0 ==> taken.push(v).to_set() == domain(lo, hi),
{
    let t = taken.push(v);
    if taken.contains(v) {
        let i = choose|i: int| 0 <= i < taken.len() && taken[i] == v;
        assert(!before.contains(taken[i]));
    }
    assert(t[taken.len() as int] == v);
    assert forall|i: int, j: int| 0 <= i < t.len() && 0 <= j < t.len() && i != j implies t[i]
        != t[j] by {
        if i < taken.len() {
            assert(t[i] == taken[i]);
        }
        if j < taken.len() {
            assert(t[j] == taken[j]);
        }
    }
    assert forall|i: int| 0 <= i < t.len() implies lo <= #[trigger] t[i] < hi && !after.contains(
        t[i],
    ) by {
        if i < taken.len() {
            assert(t[i] == taken[i]);
        }
    }
    assert forall|x: int| lo <= x < hi implies #[trigger] after.contains(x) || t.contains(x) by {
        if taken.contains(x) {
            let i = choose|i: int| 0 <= i < taken.len() && taken[i] == x;
            assert(t[i] == x);
        }
    }
    if after.len() == 0 {
        assert forall|x: int| #[trigger] t.to_set().contains(x) <==> domain(lo, hi).contains(x) by {
            if t.contains(x) {
                let i = choose|i: int| 0 <= i < t.len() && t[i] == x;
            }
            if lo <= x < hi && after.contains(x) {
                let i = choose|i: int| 0 <= i < after.len() && after[i] == x;
            }
        }
        assert(t.to_set() =~= domain(lo, hi));
    }
}

/// What a sampling entry point promises for a range, a count and a
/// randomness source: the error `check` reports, or an iterator that holds
/// the source as given (not asked yet) and will draw `check`'s count of
/// values from the ordered range, whose values are all still available.
pub open spec fn started<F: FnRand, R: RandgeTake>(
    range: Range<i64>,
    n: i64,
    rand: F,
    r: Result<RandgeIter<F, R>, RandgeError>,
) -> bool {
    match check_spec(range.start as int, range.end as int, n as int) {
        Ok((d, lo, hi)) => r matches Ok(it) && {
            &&& it.wf()
            &&& it.source() == rand
            &&& it.remaining() == d
            &&& it.lo() == lo
            &&& it.pool() == span(lo, hi)
            &&& it.initial() == span(lo, hi)
            &&& it.drawn() == Seq::<int>::empty()
            &&& it.total() == d
        },
        Err(e) => r matches Err(e2) && e2 == e,
    }
}

/// Same as [`randge_tree`].
pub fn randge<F: FnRand>(range: Range<i64>, n: i64, rand: F) -> (r: Result<
    RandgeIter<F, RangesTree>,
    RandgeError,
>)
    requires
        n <= usize::MAX,
    ensures
        started(range, n, rand, r),
{
    randge_tree(range, n, rand)
}

/// Draws `n` distinct values from `range` (bounds in either order) with the
/// list sampler: least memory, `O(n)` per draw at worst.
pub fn randge_linear<F: FnRand>(range: Range<i64>, n: i64, rand: F) -> (r: Result<
    RandgeIter<F, RangesLinear>,
    RandgeError,
>)
    requires
        n <= usize::MAX,
    ensures
        started(range, n, rand, r),
{
    match check(range, n) {
        Ok((len, min, max)) => {
            let take = RangesLinear::new(min, max);
            Ok(RandgeIter::new(len as usize, take, rand))
        },
        Err(e) => Err(e),
    }
}

/// Draws `n` distinct values from `range` (bounds in either order) with the
/// tree sampler: `O(log n)` per draw on average, moderate memory.
pub fn randge_tree<F: FnRand>(range: Range<i64>, n: i64, rand: F) -> (r: Result<
    RandgeIter<F, RangesTree>,
    RandgeError,
>)
    requires
        n <= usize::MAX,
    ensures
        started(range, n, rand, r),
{
    match check(range, n) {
        Ok((len, min, max)) => {
            let take = RangesTree::new(min, max);
            Ok(RandgeIter::new(len as usize, take, rand))
        },
        Err(e) => Err(e),
    }
}

/// Draws `n` distinct values from `range` (bounds in either order) with the
/// barrel sampler: `O(1)` per draw, one slot of memory per value of the range.
pub fn randge_barrel<F: FnRand>(range: Range<i64>, n: i64, rand: F) -> (r: Result<
    RandgeIter<F, RangesBarrel>,
    RandgeError,
>)
    requires
        n <= usize::MAX,
        range.end - range.start <= usize::MAX,
        range.start - range.end <= usize::MAX,
    ensures
        started(range, n, rand, r),
{
    match check(range, n) {
        Ok((len, min, max)) => {
            let take = RangesBarrel::new(min, max);
            Ok(RandgeIter::new(len as usize, take, rand))
        },
        Err(e) => Err(e),
    }
}

} // verus!
