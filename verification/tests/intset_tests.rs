use intset::IntSet;

#[test]
fn single_value() {
    let mut s = IntSet::new();
    s.add(5);
    assert!(s.assert_ranges(&[(5, 5)]));
    assert!(s.contains(5));
    assert!(!s.contains(4));
    assert!(!s.contains(6));
}

#[test]
fn empty_set_contains_nothing() {
    let s = IntSet::new();
    assert!(s.assert_ranges(&[]));
    assert!(!s.contains(0));
    assert!(!s.contains(42));
    assert!(!s.contains(u64::MAX));
}

#[test]
fn gap_filled_merges_to_one() {
    let mut s = IntSet::new();
    s.add_range(1, 3);
    s.add_range(5, 7);
    assert!(s.assert_ranges(&[(1, 3), (5, 7)]));
    s.add_range(4, 4);
    assert!(s.assert_ranges(&[(1, 7)]));
}

#[test]
fn three_ranges_merge_to_one() {
    let mut s = IntSet::new();
    s.add_range(10, 20);
    s.add_range(0, 5);
    assert!(s.assert_ranges(&[(0, 5), (10, 20)]));
    s.add_range(6, 9);
    assert!(s.assert_ranges(&[(0, 20)]));
}

#[test]
fn range_at_domain_minimum() {
    let mut s = IntSet::new();
    s.add_range(0, 0);
    assert!(s.assert_ranges(&[(0, 0)]));
    assert!(s.contains(0));
    assert!(!s.contains(1));
}

#[test]
fn union_from_other_set() {
    let mut a = IntSet::new();
    a.add_range(1, 5);
    let mut b = IntSet::new();
    b.add_range(3, 10);
    a.add_intset(&b);
    assert!(a.assert_ranges(&[(1, 10)]));
    assert!(b.assert_ranges(&[(3, 10)]));
}

#[test]
fn separated_ranges_stay_separate() {
    let mut s = IntSet::new();
    s.add_range(1, 3);
    s.add_range(10, 12);
    assert!(s.assert_ranges(&[(1, 3), (10, 12)]));
    assert!(!s.contains(6));
    assert!(s.contains(2));
    assert!(s.contains(11));
}

#[test]
fn lower_range_added_after_higher_stays_separate() {
    let mut s = IntSet::new();
    s.add_range(10, 12);
    s.add_range(1, 3);
    assert!(s.assert_ranges(&[(1, 3), (10, 12)]));
    assert!(!s.contains(4));
    assert!(!s.contains(6));
    assert!(!s.contains(9));
}

#[test]
fn adding_same_range_twice_changes_nothing() {
    let mut once = IntSet::new();
    once.add_range(4, 9);
    let mut twice = IntSet::new();
    twice.add_range(4, 9);
    twice.add_range(4, 9);
    assert!(twice.assert_ranges(&[(4, 9)]));
    assert!(once.assert_ranges(&[(4, 9)]));
}

#[test]
fn adjacent_ranges_merge() {
    let mut s = IntSet::new();
    s.add_range(2, 6);
    s.add_range(7, 11);
    assert!(s.assert_ranges(&[(2, 11)]));
}

#[test]
fn adjacent_below_merges() {
    let mut s = IntSet::new();
    s.add_range(7, 11);
    s.add_range(2, 6);
    assert!(s.assert_ranges(&[(2, 11)]));
}

#[test]
fn overlapping_ranges_merge() {
    let mut s = IntSet::new();
    s.add_range(2, 6);
    s.add_range(4, 9);
    assert!(s.assert_ranges(&[(2, 9)]));
    s.add_range(0, 3);
    assert!(s.assert_ranges(&[(0, 9)]));
}

#[test]
fn contained_range_changes_nothing() {
    let mut s = IntSet::new();
    s.add_range(2, 9);
    s.add_range(4, 6);
    assert!(s.assert_ranges(&[(2, 9)]));
}

#[test]
fn spanning_range_swallows_many() {
    let mut s = IntSet::new();
    s.add_range(1, 2);
    s.add_range(5, 6);
    s.add_range(9, 10);
    s.add_range(20, 30);
    assert!(s.assert_ranges(&[(1, 2), (5, 6), (9, 10), (20, 30)]));
    s.add_range(0, 15);
    assert!(s.assert_ranges(&[(0, 15), (20, 30)]));
}

#[test]
fn range_at_domain_maximum() {
    let mut s = IntSet::new();
    s.add_range(u64::MAX, u64::MAX);
    assert!(s.assert_ranges(&[(u64::MAX, u64::MAX)]));
    assert!(s.contains(u64::MAX));
    assert!(!s.contains(u64::MAX - 1));
    s.add_range(u64::MAX - 3, u64::MAX - 1);
    assert!(s.assert_ranges(&[(u64::MAX - 3, u64::MAX)]));
}

#[test]
fn full_domain_range() {
    let mut s = IntSet::new();
    s.add_range(0, u64::MAX);
    assert!(s.assert_ranges(&[(0, u64::MAX)]));
    assert!(s.contains(0));
    assert!(s.contains(1 << 63));
    assert!(s.contains(u64::MAX));
}

#[test]
fn membership_follows_merges() {
    let mut s = IntSet::new();
    s.add(100);
    s.add_range(200, 300);
    s.add(101);
    s.add_range(102, 199);
    for n in 100..=300u64 {
        assert!(s.contains(n));
    }
    assert!(!s.contains(99));
    assert!(!s.contains(301));
    assert!(s.assert_ranges(&[(100, 300)]));
}

#[test]
fn union_of_disjoint_sets() {
    let mut a = IntSet::new();
    a.add_range(1, 3);
    a.add_range(20, 25);
    let mut b = IntSet::new();
    b.add_range(5, 8);
    b.add_range(24, 30);
    a.add_intset(&b);
    assert!(a.assert_ranges(&[(1, 3), (5, 8), (20, 30)]));
    assert!(b.assert_ranges(&[(5, 8), (24, 30)]));
    assert!(a.contains(7));
    assert!(a.contains(28));
    assert!(!a.contains(4));
    assert!(!a.contains(10));
}

#[test]
fn union_with_empty_set() {
    let mut a = IntSet::new();
    a.add_range(2, 4);
    let b = IntSet::new();
    a.add_intset(&b);
    assert!(a.assert_ranges(&[(2, 4)]));
    let mut c = IntSet::new();
    c.add_intset(&a);
    assert!(c.assert_ranges(&[(2, 4)]));
}

#[test]
fn inspector_rejects_wrong_ranges() {
    let mut s = IntSet::new();
    s.add_range(1, 3);
    assert!(!s.assert_ranges(&[]));
    assert!(!s.assert_ranges(&[(1, 4)]));
    assert!(!s.assert_ranges(&[(2, 3)]));
    assert!(!s.assert_ranges(&[(1, 3), (5, 7)]));
}
