use bst_rs::{Accumulate, Bst};
use std::cmp::Ordering;

const MIXED: [i32; 16] = [50, 30, 70, 20, 40, 60, 80, 35, 45, 65, -5, 0, 99, 30, 50, 1];

fn build(values: &[i32]) -> Bst<i32> {
    let mut tree = Bst::new(values[0]);
    for v in &values[1..] {
        tree.insert(*v);
    }
    tree
}

fn elements(tree: &Bst<i32>) -> Vec<i32> {
    let mut out = Vec::new();
    let mut it = tree.iter();
    while let Some(value) = it.next() {
        out.push(*value);
    }
    out
}

#[test]
fn traversal_is_strictly_ascending() {
    let tree = build(&MIXED);
    let got = elements(&tree);
    assert_eq!(got, vec![-5, 0, 1, 20, 30, 35, 40, 45, 50, 60, 65, 70, 80, 99]);
    for pair in got.windows(2) {
        assert!(pair[0] < pair[1]);
    }
}

#[test]
fn insert_reports_whether_the_value_was_new() {
    let mut tree = Bst::new(MIXED[0]);
    let mut seen = vec![MIXED[0]];
    for v in &MIXED[1..] {
        let fresh = !seen.contains(v);
        assert_eq!(tree.insert(*v), fresh);
        seen.push(*v);
    }
}

#[test]
fn duplicate_leaves_the_rendering_unchanged() {
    let mut tree = build(&MIXED);
    let before = tree.render();
    for v in MIXED {
        assert!(!tree.insert(v));
        assert_eq!(tree.render(), before);
    }
}

#[test]
fn rendering_is_the_traversal_joined_by_spaces() {
    let tree = build(&MIXED);
    let labels: Vec<String> = elements(&tree).iter().map(|v| v.to_string()).collect();
    assert_eq!(tree.render(), labels.join(" "));
    assert_eq!(tree.render(), "-5 0 1 20 30 35 40 45 50 60 65 70 80 99");
}

#[test]
fn copy_renders_like_the_original() {
    let tree = build(&MIXED);
    let copy = tree.clone();
    assert_eq!(copy.render(), tree.render());
    assert_eq!(elements(&copy), elements(&tree));
}

#[test]
fn inserting_into_the_original_leaves_the_copy_alone() {
    let mut tree = build(&[5, 3]);
    let copy = tree.clone();
    assert!(tree.insert(7));
    assert!(tree.insert(4));
    assert_eq!(tree.render(), "3 4 5 7");
    assert_eq!(copy.render(), "3 5");
}

#[test]
fn inserting_into_the_copy_leaves_the_original_alone() {
    let tree = build(&[5, 3]);
    let mut copy = tree.clone();
    assert!(copy.insert(1));
    assert!(copy.insert(9));
    assert_eq!(copy.render(), "1 3 5 9");
    assert_eq!(tree.render(), "3 5");
}

#[test]
fn sum_is_the_total_of_the_distinct_values() {
    let tree = build(&MIXED);
    let expected: i32 = elements(&tree).iter().sum();
    assert_eq!(tree.sum(), expected);
    assert_eq!(tree.sum(), 590);
}

#[test]
fn sum_of_negative_values() {
    let tree = build(&[-1, -2, -3, 4]);
    assert_eq!(tree.sum(), -2);
}

#[test]
fn sum_over_wider_integers() {
    let mut wide = Bst::new(i64::from(i32::MAX));
    wide.insert(1);
    wide.insert(i64::from(i32::MAX) - 1);
    assert_eq!(wide.sum(), 4294967294);
    let mut wider = Bst::new(i128::from(i64::MAX));
    wider.insert(i128::from(i64::MAX) - 1);
    assert_eq!(wider.sum(), 18446744073709551613);
}

#[test]
fn sum_reaches_the_bounds_of_the_type() {
    let mut tree = Bst::new(i32::MAX - 6);
    tree.insert(1);
    tree.insert(2);
    tree.insert(3);
    assert_eq!(tree.sum(), i32::MAX);
    let mut low = Bst::new(i32::MIN + 1);
    low.insert(-1);
    low.insert(1);
    assert_eq!(low.sum(), i32::MIN + 1);
}

#[test]
fn sum_wraps_around_where_the_total_does_not_fit() {
    let mut tree = Bst::new(i32::MAX);
    tree.insert(1);
    assert_eq!(tree.sum(), i32::MIN);
    let mut wide = Bst::new(i64::MIN);
    wide.insert(-1);
    assert_eq!(wide.sum(), i64::MAX);
    let mut wider = Bst::new(i128::MAX);
    wider.insert(2);
    assert_eq!(wider.sum(), i128::MIN + 1);
}

#[test]
fn sum_is_exact_where_only_a_running_total_does_not_fit() {
    let mut tree = Bst::new(i32::MIN + 1);
    tree.insert(5);
    assert_eq!(tree.sum(), i32::MIN + 6);
    assert!(tree.insert(-3));
    assert_eq!(tree.sum(), i32::MIN + 3);
}

#[test]
fn sum_after_an_insertion_is_the_sum_before_plus_the_value() {
    let mut tree = build(&MIXED);
    let before = tree.sum();
    assert!(tree.insert(1000));
    assert_eq!(tree.sum(), before + 1000);
    assert!(!tree.insert(1000));
    assert_eq!(tree.sum(), before + 1000);
}

#[test]
fn accumulate_wraps_around() {
    let mut total = i32::MAX;
    total.accumulate(&1);
    assert_eq!(total, i32::MIN);
    total.accumulate(&-1);
    assert_eq!(total, i32::MAX);
    let mut wide = i64::MIN;
    wide.accumulate(&-1);
    assert_eq!(wide, i64::MAX);
    let mut wider = i128::MAX;
    wider.accumulate(&i128::MAX);
    assert_eq!(wider, -2);
}

#[test]
fn zero_and_accumulate_add_up() {
    let mut total = <i32 as Accumulate>::zero();
    assert_eq!(total, 0);
    total.accumulate(&3);
    total.accumulate(&-5);
    assert_eq!(total, -2);
    let mut wide = <i64 as Accumulate>::zero();
    wide.accumulate(&(1 << 40));
    wide.accumulate(&1);
    assert_eq!(wide, 1099511627777);
    let mut wider = <i128 as Accumulate>::zero();
    wider.accumulate(&(1 << 100));
    wider.accumulate(&-1);
    assert_eq!(wider, 1267650600228229401496703205375);
}

#[test]
fn distinct_insertions_are_all_produced_once() {
    let values = [8, 3, 10, 1, 6, 14, 4, 7, 13];
    let tree = build(&values);
    let mut it = tree.iter();
    let mut count = 0;
    while let Some(_) = it.next() {
        count += 1;
    }
    assert_eq!(count, values.len());
    assert_eq!(it.next(), None);
    assert_eq!(it.next(), None);
}

#[derive(Debug, Clone)]
struct Keyed {
    key: u8,
    tag: char,
}

impl PartialEq for Keyed {
    fn eq(&self, other: &Self) -> bool {
        self.key == other.key
    }
}

impl Eq for Keyed {}

impl PartialOrd for Keyed {
    fn partial_cmp(&self, other: &Self) -> Option<Ordering> {
        Some(self.cmp(other))
    }
}

impl Ord for Keyed {
    fn cmp(&self, other: &Self) -> Ordering {
        self.key.cmp(&other.key)
    }
}

#[test]
fn what_compares_as_equal_is_not_stored_twice() {
    let mut tree = Bst::new(Keyed { key: 2, tag: 'a' });
    assert!(tree.insert(Keyed { key: 1, tag: 'b' }));
    assert!(!tree.insert(Keyed { key: 2, tag: 'c' }));
    assert!(!tree.insert(Keyed { key: 1, tag: 'd' }));
    let mut it = tree.iter();
    assert_eq!(it.next().map(|k| k.tag), Some('b'));
    assert_eq!(it.next().map(|k| k.tag), Some('a'));
    assert_eq!(it.next().map(|k| k.tag), None);
}
