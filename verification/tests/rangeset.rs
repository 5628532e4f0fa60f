use sina_quotes::storage::rangeset::{from_ids, make_target_range, rangeset_intersection};
use sina_quotes::{rangeset_difference, rangeset_union, RangeSet};

#[test]
fn test_range_set_basic() {
    let mut rs = RangeSet::new();
    rs.insert(0, 100);
    rs.insert(200, 300);

    assert!(rs.contains(50));
    assert!(!rs.contains(150));
    assert!(rs.contains(250));
}

#[test]
fn test_range_set_merge() {
    let mut rs = RangeSet::new();
    rs.insert(0, 100);
    rs.insert(90, 150);
    rs.insert(150, 200);

    assert_eq!(rs.len(), 1);
    assert!(rs.contains(50));
    assert!(rs.contains(100));
    assert!(rs.contains(150));
}

#[test]
fn test_rangeset_difference() {
    let have = RangeSet::from_ranges(vec![(0, 50), (80, 100)]);
    let need = RangeSet::from_ranges(vec![(0, 100)]);

    let diff = rangeset_difference(&have, &need);

    assert_eq!(diff.len(), 1);
    assert_eq!(diff[0], (50, 80));
}

#[test]
fn test_rangeset_difference_multiple() {
    let have = RangeSet::from_ranges(vec![(0, 30), (60, 70), (90, 100)]);
    let need = RangeSet::from_ranges(vec![(0, 100)]);

    let diff = rangeset_difference(&have, &need);

    assert_eq!(diff.len(), 2);
    assert_eq!(diff[0], (30, 60));
    assert_eq!(diff[1], (70, 90));
}

#[test]
fn test_from_ids() {
    let ids = vec![1, 2, 3, 5, 6, 10];
    let rs = from_ids(&ids);

    assert_eq!(rs.len(), 3);
}

#[test]
fn from_ids_unsorted_with_duplicates() {
    let rs = from_ids(&[10, 3, 2, 2, 1, 6, 5]);
    assert_eq!(rs.ranges(), &[(1, 4), (5, 7), (10, 11)]);
    assert_eq!(rs.total_count(), 6);
}

#[test]
fn remove_splits_and_trims() {
    let mut rs = RangeSet::from_ranges(vec![(0, 100)]);
    rs.remove(40, 60);
    assert_eq!(rs.ranges(), &[(0, 40), (60, 100)]);
    rs.remove(90, 200);
    assert_eq!(rs.ranges(), &[(0, 40), (60, 90)]);
    rs.remove(50, 40);
    assert_eq!(rs.ranges(), &[(0, 40), (60, 90)]);
    assert!(rs.intersects(35, 65));
    assert!(!rs.intersects(40, 60));
    assert_eq!(rs.total_count(), 70);
    rs.clear();
    assert!(rs.is_empty());
}

#[test]
fn union_and_intersection() {
    let a = RangeSet::from_ranges(vec![(0, 10), (20, 30)]);
    let b = RangeSet::from_ranges(vec![(5, 25)]);
    assert_eq!(rangeset_union(&a, &b).ranges(), &[(0, 30)]);
    assert_eq!(rangeset_intersection(&a, &b), vec![(5, 10), (20, 25)]);
    assert_eq!(make_target_range(7).ranges(), &[(0, 7)]);
    let mut c = a.clone();
    c.insert_range((10, 20));
    assert_eq!(c.ranges(), &[(0, 30)]);
}

#[test]
fn difference_of_disjoint_need_is_need() {
    let have = RangeSet::from_ranges(vec![(0, 10)]);
    let need = RangeSet::from_ranges(vec![(20, 30)]);
    assert_eq!(rangeset_difference(&have, &need), vec![(20, 30)]);
    let all = RangeSet::from_ranges(vec![(0, 100)]);
    assert!(rangeset_difference(&all, &need).is_empty());
}

#[test]
fn normal_form_is_kept_and_unique() {
    let normal = vec![(0, 5), (10, 20), (30, 31)];
    assert_eq!(RangeSet::from_ranges(normal.clone()).ranges(), &normal[..]);
    // Another list with the same ids gives the same normal form.
    let messy = vec![(30, 31), (15, 20), (0, 3), (10, 16), (3, 5)];
    assert_eq!(RangeSet::from_ranges(messy).ranges(), &normal[..]);
}

#[test]
fn intersection_is_already_normal() {
    let a = RangeSet::from_ranges(vec![(0, 10), (20, 30), (40, 50)]);
    let b = RangeSet::from_ranges(vec![(5, 22), (25, 45)]);
    let result = rangeset_intersection(&a, &b);
    assert_eq!(result, vec![(5, 10), (20, 22), (25, 30), (40, 45)]);
    assert_eq!(RangeSet::from_ranges(result.clone()).ranges(), &result[..]);
}

#[test]
fn from_ids_counts_distinct_ids() {
    let rs = from_ids(&[7, 3, 4, 3, 5, 10, 7]);
    assert_eq!(rs.ranges(), &[(3, 6), (7, 8), (10, 11)][..]);
    assert_eq!(rs.total_count(), 5);
}

#[test]
fn insert_range_matches_insert_with_an_empty_range_stored() {
    let base = RangeSet::from_ranges(vec![(5, 5), (10, 20)]);
    let mut a = base.clone();
    a.insert_range((0, 6));
    let mut b = base.clone();
    b.insert(0, 6);
    assert_eq!(a.ranges(), b.ranges());
    assert_eq!(a.ranges(), &[(0, 6), (10, 20)][..]);
}
