use randge::{RandgeTake, RangesBarrel, RangesLinear, RangesTree};

#[test]
fn barrel_test() {
    println!("");
    let mut t = RangesBarrel::new(5, 15);
    let v = t.take(5);
    println!("{}\n{:?}\n", v, t);
    assert_eq!(v, 5);
    let v = t.take(5);
    println!("{}\n{:?}\n", v, t);
    assert_eq!(v, 14);
    let v = t.take(5);
    println!("{}\n{:?}\n", v, t);
    assert_eq!(v, 13);
    assert_eq!(t.range(), 5..12);
}

#[test]
fn linear_test() {
    println!("");
    let mut t = RangesLinear::new(5, 15);
    let v = t.take(6);
    println!("{}\n{:?}\n", v, t);
    assert_eq!(v, 6);
    let v = t.take(7);
    println!("{}\n{:?}\n", v, t);
    assert_eq!(v, 8);
    let v = t.take(8);
    println!("{}\n{:?}\n", v, t);
    assert_eq!(v, 10);
    let v = t.take(9);
    println!("{}\n{:?}\n", v, t);
    assert_eq!(v, 12);
    let v = t.take(10);
    println!("{}\n{:?}\n", v, t);
    assert_eq!(v, 14);
    assert_eq!(t.range(), 5..10);
}

#[test]
fn tree_test() {
    println!("");
    let mut t = RangesTree::new(5, 35);
    let v = t.take(33);
    println!("{}\n{}\n", v, t.show());
    assert_eq!(v, 33);
    let v = t.take(31);
    println!("{}\n{}\n", v, t.show());
    assert_eq!(v, 31);
    let v = t.take(29);
    println!("{}\n{}\n", v, t.show());
    assert_eq!(v, 29);
    let v = t.take(27);
    println!("{}\n{}\n", v, t.show());
    assert_eq!(v, 27);
    let v = t.take(25);
    println!("{}\n{}\n", v, t.show());
    assert_eq!(v, 25);
    assert_eq!(t.range(), 5..30);
}

/// Takes every value by the given sequence of ranks (relative to the
/// range start) and returns the values in the order they came out.
fn drain<T: RandgeTake>(t: &mut T, ranks: &[i64]) -> Vec<i64> {
    let mut out = Vec::new();
    for r in ranks {
        let range = t.range();
        out.push(t.take(range.start + r));
    }
    out
}

#[test]
fn linear_ranks_are_sorted_order() {
    let mut t = RangesLinear::new(-3, 4);
    // pool: -3 -2 -1 0 1 2 3
    assert_eq!(drain(&mut t, &[3, 0, 4, 2, 0, 1, 0]), vec![0, -3, 3, 1, -2, 2, -1]);
    assert_eq!(t.range(), -3..-3);
}

#[test]
fn tree_ranks_are_sorted_order() {
    let mut t = RangesTree::new(-3, 4);
    assert_eq!(drain(&mut t, &[3, 0, 4, 2, 0, 1, 0]), vec![0, -3, 3, 1, -2, 2, -1]);
    assert_eq!(t.range(), -3..-3);
}

#[test]
fn barrel_swaps_with_last_active_slot() {
    let mut t = RangesBarrel::new(-3, 4);
    // [-3 -2 -1 0 1 2 3] take idx 3 -> 0, slot 3 gets 3
    // [-3 -2 -1 3 1 2] take idx 0 -> -3, slot 0 gets 2
    // [2 -2 -1 3 1] take idx 4 -> 1
    // [2 -2 -1 3] take idx 2 -> -1, slot 2 gets 3
    // [2 -2 3] take idx 0 -> 2, slot 0 gets 3
    // [3 -2] take idx 1 -> -2
    // [3] take idx 0 -> 3
    assert_eq!(drain(&mut t, &[3, 0, 4, 2, 0, 1, 0]), vec![0, -3, 1, -1, 2, -2, 3]);
    assert_eq!(t.range(), -3..-3);
}

#[test]
fn tree_edges_and_interior() {
    let mut t = RangesTree::new(0, 10);
    assert_eq!(drain(&mut t, &[0, 8, 4, 3, 3, 0, 2, 1, 1, 0]), vec![0, 9, 5, 4, 6, 1, 7, 3, 8, 2]);
}

#[test]
fn linear_edges_and_interior() {
    let mut t = RangesLinear::new(0, 10);
    assert_eq!(drain(&mut t, &[0, 8, 4, 3, 3, 0, 2, 1, 1, 0]), vec![0, 9, 5, 4, 6, 1, 7, 3, 8, 2]);
}

#[test]
fn samplers_at_the_ends_of_i64() {
    let mut t = RangesTree::new(i64::MIN, i64::MAX);
    assert_eq!(t.take(i64::MAX - 1), i64::MAX - 1);
    assert_eq!(t.take(i64::MIN), i64::MIN);
    assert_eq!(t.take(i64::MIN + 5), i64::MIN + 6);
    assert_eq!(t.range(), i64::MIN..i64::MAX - 3);
    let mut l = RangesLinear::new(i64::MIN, i64::MAX);
    assert_eq!(l.take(i64::MAX - 1), i64::MAX - 1);
    assert_eq!(l.take(i64::MIN), i64::MIN);
    assert_eq!(l.take(i64::MIN + 5), i64::MIN + 6);
    assert_eq!(l.range(), i64::MIN..i64::MAX - 3);
}

#[test]
fn tree_text_shows_each_node() {
    let mut t = RangesTree::new(5, 35);
    assert_eq!(t.show(), "RangesTree (size: 5..35) Root (range: 5..35)");
    t.take(33);
    assert_eq!(
        t.show(),
        "RangesTree (size: 5..34) Root (range: 5..34)\n  l: L (range: 5..33)\n  r: R (range: 34..35)"
    );
    t.take(31);
    assert_eq!(
        t.show(),
        "RangesTree (size: 5..33) Root (range: 5..33)\n  l: L (range: 5..32)\n  |  l: L (range: 5..31)\n  |  r: R (range: 32..33)\n  r: R (range: 34..35)"
    );
    let mut n = RangesTree::new(-3, -1);
    n.take(-2);
    assert_eq!(n.show(), "RangesTree (size: -3..-2) Root (range: -3..-2)");
}

#[test]
fn tree_moves_a_leaf_across() {
    let mut t = RangesTree::new(0, 10);
    assert_eq!(t.take(1), 1);
    assert_eq!(t.take(2), 3);
    assert_eq!(t.take(3), 5);
    assert_eq!(
        t.show(),
        "RangesTree (size: 0..7) Root (range: 0..7)\n  l: L (range: 0..2)\n  |  l: L (range: 0..1)\n  |  r: R (range: 2..3)\n  r: R (range: 4..9)\n  |  l: L (range: 4..5)\n  |  r: R (range: 6..10)"
    );
    assert_eq!(drain(&mut t, &[6, 0, 3, 1, 2, 0, 0]), vec![9, 0, 7, 4, 8, 2, 6]);
}
