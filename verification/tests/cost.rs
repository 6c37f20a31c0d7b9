use std::cell::Cell;

use min_heap::{BinaryHeap, Comparison, TotalOrder};

/// A key that counts how often it is compared.
#[derive(Clone, Copy)]
struct Counted<'a> {
    key: u32,
    comparisons: &'a Cell<usize>,
}

impl<'a> TotalOrder for Counted<'a> {
    fn leq(self, other: Self) -> bool {
        self.key <= other.key
    }

    fn leq_reflexive(_a: Self) {}

    fn leq_antisymmetric(_a: Self, _b: Self) {}

    fn leq_transitive(_a: Self, _b: Self, _c: Self) {}

    fn leq_total(_a: Self, _b: Self) {}

    fn compare(&self, other: &Self) -> Comparison {
        self.comparisons.set(self.comparisons.get() + 1);
        self.key.compare(&other.key)
    }
}

fn keys(n: usize, seed: u32) -> Vec<u32> {
    let mut x = seed;
    let mut out = Vec::new();
    for _ in 0..n {
        x = x.wrapping_mul(1664525).wrapping_add(1013904223);
        out.push(x >> 8);
    }
    out
}

/// Number of levels above position `c`: the whole part of its binary logarithm.
fn levels_above(c: usize) -> usize {
    let mut levels = 0;
    let mut c = c;
    while c > 1 {
        c /= 2;
        levels += 1;
    }
    levels
}

fn comparisons_of_build(input: &[u32]) -> usize {
    let counter = Cell::new(0);
    let items: Vec<Counted> =
        input.iter().map(|k| Counted { key: *k, comparisons: &counter }).collect();
    let mut heap = BinaryHeap::new();
    heap.build_new(&items);
    assert_eq!(heap.size(), input.len());
    counter.get()
}

#[test]
fn build_compares_at_most_twice_per_element() {
    for n in [0usize, 1, 2, 3, 4, 5, 10, 100, 1000, 10000, 100000] {
        let random = keys(n, 7);
        assert!(comparisons_of_build(&random) <= 2 * n);

        // Descending input makes every sift go all the way down.
        let descending: Vec<u32> = (0..n as u32).rev().collect();
        assert!(comparisons_of_build(&descending) <= 2 * n);

        let ascending: Vec<u32> = (0..n as u32).collect();
        assert!(comparisons_of_build(&ascending) <= 2 * n);

        let equal: Vec<u32> = vec![5; n];
        assert!(comparisons_of_build(&equal) <= 2 * n);
    }
}

#[test]
fn build_of_descending_keys_counts_exactly() {
    // 3 2 1: position 1 has two children, one comparison between them and
    // one with the smaller.
    assert_eq!(comparisons_of_build(&[3, 2, 1]), 2);
    // 2 1: position 1 has one child.
    assert_eq!(comparisons_of_build(&[2, 1]), 1);
    assert_eq!(comparisons_of_build(&[1]), 0);
    assert_eq!(comparisons_of_build(&[]), 0);
    // 4 3 2 1: position 2 has one child (1 comparison); position 1 has two
    // children (2 comparisons), goes down to position 2 and is compared with
    // its one child there (1 comparison).
    assert_eq!(comparisons_of_build(&[4, 3, 2, 1]), 4);
}

#[test]
fn push_and_pop_compare_once_or_twice_per_level() {
    let counter = Cell::new(0);
    let mut heap = BinaryHeap::new();
    for (n, k) in keys(5000, 11).into_iter().enumerate() {
        let before = counter.get();
        heap.push(Counted { key: k, comparisons: &counter });
        assert!(counter.get() - before <= levels_above(n + 1));
    }
    let mut last = 0;
    while !heap.is_empty() {
        let n = heap.size();
        let before = counter.get();
        let least = heap.pop().unwrap();
        let levels = if n >= 2 { levels_above(n - 1) } else { 0 };
        assert!(counter.get() - before <= 2 * levels);
        assert!(last <= least.key);
        last = least.key;
    }
}

#[test]
fn descending_pushes_climb_to_the_root() {
    let counter = Cell::new(0);
    let mut heap = BinaryHeap::new();
    for n in 0..1000usize {
        let before = counter.get();
        heap.push(Counted { key: (1000 - n) as u32, comparisons: &counter });
        assert_eq!(counter.get() - before, levels_above(n + 1));
        assert_eq!(heap.min().unwrap().key, (1000 - n) as u32);
    }
}
