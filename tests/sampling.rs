use std::collections::HashSet;
use std::ops::Range;

use rand::rngs::{OsRng, StdRng};
use rand::thread_rng;
use rand::SeedableRng;
use randge::{
    abs, check, is_negative, randge, randge_barrel, randge_linear, randge_tree, FnRand,
    RandgeError, RandgeIter, RandgeTake, RangesLinear, RangesTree,
};

/// Randomness that always picks the lowest rank.
struct Lowest;

impl FnRand for Lowest {
    fn rand(&mut self, range: Range<i64>) -> i64 {
        range.start
    }
}

/// Randomness that replays a fixed script of offsets from the range start.
struct Script {
    offsets: Vec<i64>,
    calls: usize,
}

impl FnRand for Script {
    fn rand(&mut self, range: Range<i64>) -> i64 {
        let o = self.offsets[self.calls % self.offsets.len()];
        self.calls += 1;
        range.start + o % (range.end - range.start)
    }
}

/// Randomness that answers one past the end of the range.
struct PastEnd;

impl FnRand for PastEnd {
    fn rand(&mut self, range: Range<i64>) -> i64 {
        range.end
    }
}

/// Randomness that must never be asked.
struct Never;

impl FnRand for Never {
    fn rand(&mut self, _range: Range<i64>) -> i64 {
        panic!("randomness was asked for a value")
    }
}

fn assert_distinct_in(v: &[i64], lo: i64, hi: i64) {
    let set: HashSet<i64> = v.iter().copied().collect();
    assert_eq!(set.len(), v.len());
    for x in v {
        assert!(lo <= *x && *x < hi, "{} outside [{}, {})", x, lo, hi);
    }
}

#[test]
fn test_linear() {
    let v = randge_linear(5..15, 5, thread_rng()).unwrap();
    let v: Vec<_> = v.collect().unwrap();
    println!("{:?}", v);
    assert_eq!(v.len(), 5);
    assert_distinct_in(&v, 5, 15);
}

#[test]
fn test_tree() {
    let v = randge_tree(5..15, 5, thread_rng()).unwrap();
    let v: Vec<_> = v.collect().unwrap();
    println!("{:?}", v);
    assert_eq!(v.len(), 5);
    assert_distinct_in(&v, 5, 15);
}

#[test]
fn test_barrel() {
    let v = randge_barrel(5..15, 5, thread_rng()).unwrap();
    let v: Vec<_> = v.collect().unwrap();
    println!("{:?}", v);
    assert_eq!(v.len(), 5);
    assert_distinct_in(&v, 5, 15);
}

#[test]
fn test_repeat_linear() {
    let mut set = HashSet::<i64>::new();
    let v = randge_linear(-100..100, 100, thread_rng()).unwrap().collect().unwrap();
    for i in v {
        assert!(set.insert(i));
    }
}

#[test]
fn test_repeat_tree() {
    let mut set = HashSet::<i64>::new();
    let v = randge_tree(-100..100, 100, thread_rng()).unwrap().collect().unwrap();
    for i in v {
        assert!(set.insert(i));
    }
}

#[test]
fn test_repeat_barrel() {
    let mut set = HashSet::<i64>::new();
    let v = randge_barrel(-100..100, 100, thread_rng()).unwrap().collect().unwrap();
    for i in v {
        assert!(set.insert(i));
    }
}

#[test]
fn check_rejects_empty_negative_and_too_many() {
    assert_eq!(check(5..5, 0), Err(RandgeError::EmptyDomain));
    assert_eq!(check(0..10, -1), Err(RandgeError::NegativeCount));
    assert_eq!(check(0..10, 11), Err(RandgeError::CountExceedsDomain));
    assert_eq!(check(5..5, -1), Err(RandgeError::EmptyDomain));
}

#[test]
fn check_orders_bounds() {
    assert_eq!(check(-15..15, 5), Ok((5, -15, 15)));
    assert_eq!(check(15..-15, 5), Ok((5, -15, 15)));
    assert_eq!(check(0..10, 10), Ok((10, 0, 10)));
    assert_eq!(check(0..10, 0), Ok((0, 0, 10)));
    assert_eq!(check(i64::MIN..i64::MAX, i64::MAX), Ok((i64::MAX, i64::MIN, i64::MAX)));
}

#[test]
fn entry_points_reject_like_check() {
    assert_eq!(randge(5..5, 0, Lowest).err(), Some(RandgeError::EmptyDomain));
    assert_eq!(randge_linear(0..10, -1, Lowest).err(), Some(RandgeError::NegativeCount));
    assert_eq!(randge_tree(0..10, 11, Lowest).err(), Some(RandgeError::CountExceedsDomain));
    assert_eq!(randge_barrel(0..10, 11, Lowest).err(), Some(RandgeError::CountExceedsDomain));
}

#[test]
fn scenario_minus_fifteen_to_fifteen() {
    let v = randge(-15..15, 5, thread_rng()).unwrap().collect().unwrap();
    assert_eq!(v.len(), 5);
    assert_distinct_in(&v, -15, 15);
    let s = Script { offsets: vec![28, 12, 1, 18, 16], calls: 0 };
    let v = randge(-15..15, 5, s).unwrap().collect().unwrap();
    // ranks in sorted order of what is left
    assert_eq!(v, vec![13, -3, -14, 5, 3]);
}

#[test]
fn lowest_rank_gives_increasing_values() {
    let v = randge_linear(3..8, 5, Lowest).unwrap().collect().unwrap();
    assert_eq!(v, vec![3, 4, 5, 6, 7]);
    let v = randge_tree(8..3, 5, Lowest).unwrap().collect().unwrap();
    assert_eq!(v, vec![3, 4, 5, 6, 7]);
    let v = randge_barrel(3..8, 5, Lowest).unwrap().collect().unwrap();
    assert_eq!(v, vec![3, 7, 6, 5, 4]);
}

#[test]
fn full_draw_is_the_whole_domain() {
    let domain: HashSet<i64> = (-7..9).collect();
    for seed in 0..4u64 {
        let a = randge_linear(-7..9, 16, StdRng::seed_from_u64(seed)).unwrap().collect().unwrap();
        let b = randge_tree(-7..9, 16, StdRng::seed_from_u64(seed)).unwrap().collect().unwrap();
        let c = randge_barrel(-7..9, 16, StdRng::seed_from_u64(seed)).unwrap().collect().unwrap();
        for v in [a, b, c] {
            assert_eq!(v.len(), 16);
            assert_eq!(v.iter().copied().collect::<HashSet<i64>>(), domain);
        }
    }
}

#[test]
fn same_script_each_strategy_distinct_in_domain() {
    let script = vec![4, 0, 9, 2, 2, 7, 1];
    let a = randge_linear(0..20, 7, Script { offsets: script.clone(), calls: 0 }).unwrap();
    let b = randge_tree(0..20, 7, Script { offsets: script.clone(), calls: 0 }).unwrap();
    let c = randge_barrel(0..20, 7, Script { offsets: script, calls: 0 }).unwrap();
    let a = a.collect().unwrap();
    let b = b.collect().unwrap();
    let c = c.collect().unwrap();
    assert_eq!(a, b);
    for v in [&a, &b, &c] {
        assert_eq!(v.len(), 7);
        assert_distinct_in(v, 0, 20);
    }
}

#[test]
fn zero_count_never_asks_for_randomness() {
    let mut it = randge_tree(0..10, 0, Never).unwrap();
    assert_eq!(it.size_hint(), (0, Some(0)));
    assert_eq!(it.next(), None);
    assert_eq!(it.next(), None);
    assert_eq!(randge_linear(0..10, 0, Never).unwrap().collect(), Ok(vec![]));
    assert_eq!(randge_barrel(0..10, 0, Never).unwrap().collect(), Ok(vec![]));
}

#[test]
fn out_of_range_randomness_aborts() {
    let mut it = randge_linear(0..10, 3, PastEnd).unwrap();
    assert_eq!(it.next(), Some(Err(RandgeError::RandomOutOfRange)));
    assert_eq!(it.size_hint(), (0, Some(0)));
    assert_eq!(it.next(), None);
    assert_eq!(
        randge_tree(0..10, 3, PastEnd).unwrap().collect(),
        Err(RandgeError::RandomOutOfRange)
    );
}

#[test]
fn remaining_count_reaches_zero() {
    let mut it = randge_barrel(-2..3, 5, OsRng).unwrap();
    let mut seen = Vec::new();
    for k in (0..5).rev() {
        seen.push(it.next().unwrap().unwrap());
        assert_eq!(it.size_hint(), (k, Some(k)));
    }
    assert_eq!(it.next(), None);
    seen.sort();
    assert_eq!(seen, vec![-2, -1, 0, 1, 2]);
}

#[test]
fn next_from_takes_the_given_rank() {
    let mut it = RandgeIter::new(3, RangesLinear::new(10, 20), Never);
    assert_eq!(it.next_from(12), Some(Ok(12)));
    assert_eq!(it.next_from(12), Some(Ok(13)));
    assert_eq!(it.next_from(18), Some(Err(RandgeError::RandomOutOfRange)));
    assert_eq!(it.next_from(10), None);
    let mut it = RandgeIter::new(2, RangesTree::new(10, 20), Never);
    assert_eq!(it.next_from(9), Some(Err(RandgeError::RandomOutOfRange)));
    assert_eq!(it.count(), 0);
}

#[test]
fn count_nth_and_last() {
    let it = randge_tree(0..100, 40, Lowest).unwrap();
    assert_eq!(it.count(), 40);
    let mut it = randge_tree(0..100, 40, Lowest).unwrap();
    assert_eq!(it.nth(10), Some(Ok(0)));
    assert_eq!(it.size_hint(), (29, Some(29)));
    assert_eq!(it.nth(29), None);
    assert_eq!(it.size_hint(), (0, Some(0)));
    assert_eq!(randge_linear(0..100, 40, Lowest).unwrap().last(), Some(Ok(0)));
    assert_eq!(randge_linear(0..100, 0, Never).unwrap().last(), None);
}

#[test]
fn thread_os_and_std_sources_stay_in_range() {
    for _ in 0..50 {
        let mut t = thread_rng();
        let v = t.rand(-5..5);
        assert!((-5..5).contains(&v));
        let v = OsRng.rand(7..9);
        assert!((7..9).contains(&v));
        let v = StdRng::seed_from_u64(9).rand(i64::MIN..i64::MAX);
        assert!(v < i64::MAX);
    }
    let mut s = StdRng::seed_from_u64(1);
    let draws: HashSet<i64> = (0..20).map(|_| s.rand(0..1_000_000)).collect();
    assert!(draws.len() > 1);
}

#[test]
fn utils() {
    assert_eq!(abs(-5), 5);
    assert_eq!(abs(7), 7);
    assert_eq!(abs(0), 0);
    assert!(is_negative(-1));
    assert!(!is_negative(0));
    assert!(!is_negative(3));
}

#[test]
fn sampler_range_shrinks_by_one() {
    let mut t = RangesTree::new(0, 4);
    assert_eq!(t.range(), 0..4);
    t.take(2);
    assert_eq!(t.range(), 0..3);
}

#[test]
fn tree_and_list_agree_on_ranks() {
    for seed in 0..3u64 {
        let a = randge_linear(-500..500, 700, StdRng::seed_from_u64(seed)).unwrap().collect().unwrap();
        let b = randge_tree(-500..500, 700, StdRng::seed_from_u64(seed)).unwrap().collect().unwrap();
        assert_eq!(a, b);
        assert_distinct_in(&a, -500, 500);
    }
}

/// Randomness that answers fixed ranks in turn and records the ranges asked.
struct Ranks {
    answers: Vec<i64>,
    asked: Vec<(i64, i64)>,
}

impl FnRand for Ranks {
    fn rand(&mut self, range: Range<i64>) -> i64 {
        self.asked.push((range.start, range.end));
        self.answers[self.asked.len() - 1]
    }
}

#[test]
fn scripted_tree_session_is_determined() {
    let mut it = randge(-15..15, 5, Ranks { answers: vec![13, -3, -14, 3, 1], asked: vec![] }).unwrap();
    let mut v = Vec::new();
    while let Some(x) = it.next() {
        v.push(x.unwrap());
    }
    assert_eq!(v, vec![13, -3, -14, 5, 3]);
    let mut w = Vec::new();
    let mut rev = randge_tree(15..-15, 5, Ranks { answers: vec![13, -3, -14, 3, 1], asked: vec![] })
        .unwrap();
    while let Some(x) = rev.next() {
        w.push(x.unwrap());
    }
    assert_eq!(w, v);
}

#[test]
fn scripted_session_asks_shrinking_ranges() {
    let mut src = Ranks { answers: vec![13, -3, -14, 3, 1], asked: vec![] };
    let mut it = RandgeIter::new(5, RangesTree::new(-15, 15), Never);
    let mut v = Vec::new();
    for drawn in 0..5i64 {
        // the rank range shrinks by one per draw
        let rank = src.rand(-15..15 - drawn);
        v.push(it.next_from(rank).unwrap().unwrap());
        assert_eq!(it.size_hint(), (4 - drawn as usize, Some(4 - drawn as usize)));
    }
    assert_eq!(v, vec![13, -3, -14, 5, 3]);
    assert_eq!(src.asked, vec![(-15, 15), (-15, 14), (-15, 13), (-15, 12), (-15, 11)]);
    assert_eq!(it.next_from(0), None);
}
