use skip_list::promotion::draw_height;
use skip_list::{SkipList, LAYER_COUNT};
use std::collections::BTreeSet;

fn build(values: &[i64]) -> SkipList {
    let mut list = SkipList::default();
    for v in values {
        list.insert(*v);
    }
    list
}

fn check_shape(list: &SkipList) {
    let base = list.values();
    for w in base.windows(2) {
        assert!(w[0] < w[1]);
    }
    for k in 1..LAYER_COUNT {
        let upper = list.layer_values(k);
        let lower = list.layer_values(k - 1);
        for w in upper.windows(2) {
            assert!(w[0] < w[1]);
        }
        for x in &upper {
            assert!(lower.contains(x));
        }
    }
}

#[test]
fn basics() {
    let nums: [i64; 10] = [3, 1, 9, 12, 11, 16, 99, 18, 7, 22];

    let mut skip_list = SkipList::default();
    for n in &nums {
        skip_list.insert(*n);
    }

    assert_eq!(skip_list.contains(3), true);
    assert_eq!(skip_list.contains(4), false);
}

#[test]
fn scenario_sorted_base() {
    let list = build(&[3, 1, 9, 12, 11, 16, 99, 18, 7, 22]);
    assert!(list.contains(3));
    assert!(!list.contains(4));
    assert_eq!(list.values(), vec![1, 3, 7, 9, 11, 12, 16, 18, 22, 99]);
    check_shape(&list);
}

#[test]
fn scenario_decreasing_order() {
    let list = build(&[5, 4, 3, 2, 1]);
    assert_eq!(list.values(), vec![1, 2, 3, 4, 5]);
    for v in 1..=5 {
        assert!(list.contains(v));
    }
    assert!(!list.contains(0));
    assert!(!list.contains(6));
    check_shape(&list);
}

#[test]
fn empty_contains_nothing() {
    let list = SkipList::new();
    for v in [i64::MIN, -1, 0, 1, 42, i64::MAX] {
        assert!(!list.contains(v));
    }
    assert!(list.values().is_empty());
    for k in 0..LAYER_COUNT {
        assert!(list.layer_values(k).is_empty());
        assert!(list.layer_presence(k).is_empty());
    }
}

#[test]
fn first_insert_fills_every_layer() {
    let mut list = SkipList::new();
    list.insert(42);
    for k in 0..LAYER_COUNT {
        assert_eq!(list.layer_values(k), vec![42]);
    }
    assert!(list.contains(42));
}

#[test]
fn first_insert_ignores_drawn_height() {
    let mut list = SkipList::new();
    list.insert_with_height(-7, 1);
    for k in 0..LAYER_COUNT {
        assert_eq!(list.layer_values(k), vec![-7]);
    }
}

#[test]
fn height_decides_the_layers_joined() {
    let mut list = SkipList::new();
    list.insert_with_height(10, 1);
    list.insert_with_height(5, 1);
    assert_eq!(list.layer_values(0), vec![5, 10]);
    assert_eq!(list.layer_values(1), vec![10]);
    assert_eq!(list.layer_values(2), vec![10]);
    list.insert_with_height(7, 2);
    assert_eq!(list.layer_values(0), vec![5, 7, 10]);
    assert_eq!(list.layer_values(1), vec![7, 10]);
    assert_eq!(list.layer_values(2), vec![10]);
    list.insert_with_height(20, 3);
    list.insert_with_height(1, 3);
    assert_eq!(list.layer_values(0), vec![1, 5, 7, 10, 20]);
    assert_eq!(list.layer_values(1), vec![1, 7, 10, 20]);
    assert_eq!(list.layer_values(2), vec![1, 10, 20]);
    check_shape(&list);
}

#[test]
fn value_below_a_sparse_head_is_found() {
    let mut list = SkipList::new();
    list.insert_with_height(5, 3);
    list.insert_with_height(3, 1);
    assert!(list.contains(3));
    assert!(list.contains(5));
    assert!(!list.contains(4));
    assert!(!list.contains(2));
}

#[test]
fn duplicate_below_a_fast_lane_is_rejected() {
    let mut list = SkipList::new();
    list.insert_with_height(1, 3);
    list.insert_with_height(3, 1);
    list.insert_with_height(3, 3);
    assert_eq!(list.layer_values(0), vec![1, 3]);
    assert_eq!(list.layer_values(1), vec![1]);
    assert_eq!(list.layer_values(2), vec![1]);
}

#[test]
fn insert_twice_changes_nothing() {
    let mut list = build(&[8, 2, 6]);
    list.insert(4);
    let once: Vec<Vec<i64>> = (0..LAYER_COUNT).map(|k| list.layer_values(k)).collect();
    list.insert(4);
    let twice: Vec<Vec<i64>> = (0..LAYER_COUNT).map(|k| list.layer_values(k)).collect();
    assert_eq!(once, twice);
    assert_eq!(list.values(), vec![2, 4, 6, 8]);
}

#[test]
fn presence_marks_fast_lane_values() {
    let mut list = SkipList::new();
    list.insert_with_height(10, 3);
    list.insert_with_height(20, 1);
    list.insert_with_height(30, 2);
    list.insert_with_height(40, 3);
    assert_eq!(list.layer_presence(0), vec![true, true, true, true]);
    assert_eq!(list.layer_presence(1), vec![true, false, true, true]);
    assert_eq!(list.layer_presence(2), vec![true, false, false, true]);
}

#[test]
fn membership_matches_inserted_values() {
    let mut list = SkipList::new();
    let mut seen = BTreeSet::new();
    let mut x: i64 = 17;
    for _ in 0..300 {
        x = (x * 37 + 11) % 201 - 100;
        list.insert(x);
        seen.insert(x);
    }
    for v in -120..120 {
        assert_eq!(list.contains(v), seen.contains(&v));
    }
    assert_eq!(list.values(), seen.iter().copied().collect::<Vec<i64>>());
    check_shape(&list);
}

#[test]
fn extreme_values() {
    let list = build(&[0, i64::MAX, i64::MIN, -1]);
    assert_eq!(list.values(), vec![i64::MIN, -1, 0, i64::MAX]);
    assert!(list.contains(i64::MIN));
    assert!(list.contains(i64::MAX));
    assert!(!list.contains(1));
}

#[test]
fn drawn_heights_stay_in_range() {
    let mut seen = [false; LAYER_COUNT + 1];
    for _ in 0..2000 {
        let h = draw_height(LAYER_COUNT);
        assert!(h >= 1 && h <= LAYER_COUNT);
        seen[h] = true;
    }
    for h in 1..=LAYER_COUNT {
        assert!(seen[h]);
    }
    assert_eq!(draw_height(1), 1);
}
