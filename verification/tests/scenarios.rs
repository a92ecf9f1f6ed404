use bst_rs::{Bst, BstIter};

fn elements(tree: &Bst<i32>) -> Vec<i32> {
    let mut out = Vec::new();
    let mut it = tree.iter();
    while let Some(value) = it.next() {
        out.push(*value);
    }
    out
}

#[test]
fn five_then_three_renders_three_five() {
    let mut tree = Bst::new(5);
    assert!(tree.insert(3));
    assert_eq!(tree.render(), "3 5");
}

#[test]
fn seven_afterwards_goes_to_the_end() {
    let mut tree = Bst::new(5);
    assert!(tree.insert(3));
    assert!(tree.insert(7));
    assert_eq!(tree.render(), "3 5 7");
    assert_eq!(tree.sum(), 15);
}

#[test]
fn three_again_is_refused_and_changes_nothing() {
    let mut tree = Bst::new(5);
    tree.insert(3);
    tree.insert(7);
    assert!(!tree.insert(3));
    assert_eq!(tree.render(), "3 5 7");
    assert_eq!(elements(&tree), vec![3, 5, 7]);
    assert_eq!(tree.sum(), 15);
}

#[test]
fn sample_run_prints_what_is_expected() {
    let mut sample = Bst::new(5);
    sample.insert(3);
    let copy = sample.clone();
    sample.insert(7);
    assert_eq!(sample.render(), "3 5 7");
    assert_eq!(copy.render(), "3 5");
    let mut it = sample.iter();
    assert_eq!(it.next(), Some(&3));
    assert_eq!(it.next(), Some(&5));
    assert_eq!(it.next(), Some(&7));
    assert_eq!(it.next(), None);
    assert_eq!(sample.sum(), 15);
}

#[test]
fn single_node_tree() {
    let tree = Bst::new(42);
    assert_eq!(tree.render(), "42");
    assert_eq!(elements(&tree), vec![42]);
    assert_eq!(tree.sum(), 42);
}

#[test]
fn root_value_is_a_duplicate_too() {
    let mut tree = Bst::new(5);
    assert!(!tree.insert(5));
    assert_eq!(tree.render(), "5");
}

#[test]
fn iterator_from_new_equals_iterator_from_iter() {
    let mut tree = Bst::new(4);
    for v in [2, 6, 1, 3, 5, 7] {
        tree.insert(v);
    }
    let mut a = BstIter::new(&tree);
    let mut b = tree.iter();
    loop {
        let x = a.next();
        let y = b.next();
        assert_eq!(x, y);
        if x.is_none() {
            break;
        }
    }
}

#[test]
fn first_item_is_the_least_element() {
    let mut tree = Bst::new(10);
    for v in [4, 15, 2, 8, -3, 12] {
        tree.insert(v);
    }
    let mut it = tree.iter();
    assert_eq!(it.next(), Some(&-3));
}

#[test]
fn exhausted_iterator_stays_exhausted() {
    let tree = Bst::new(1);
    let mut it = tree.iter();
    assert_eq!(it.next(), Some(&1));
    for _ in 0..5 {
        assert_eq!(it.next(), None);
    }
}

#[test]
fn several_iterators_may_read_one_tree() {
    let mut tree = Bst::new(2);
    tree.insert(1);
    tree.insert(3);
    let mut a = tree.iter();
    let mut b = tree.iter();
    assert_eq!(a.next(), Some(&1));
    assert_eq!(a.next(), Some(&2));
    assert_eq!(b.next(), Some(&1));
    assert_eq!(a.next(), Some(&3));
    assert_eq!(b.next(), Some(&2));
    assert_eq!(b.next(), Some(&3));
    assert_eq!(a.next(), None);
    assert_eq!(b.next(), None);
}

#[test]
fn ascending_insertions_make_a_right_spine() {
    let mut tree = Bst::new(0);
    for v in 1..200 {
        assert!(tree.insert(v));
    }
    let expected: Vec<i32> = (0..200).collect();
    assert_eq!(elements(&tree), expected);
    assert_eq!(tree.sum(), 19900);
}

#[test]
fn descending_insertions_make_a_left_spine() {
    let mut tree = Bst::new(200);
    for v in (0..200).rev() {
        assert!(tree.insert(v));
    }
    let expected: Vec<i32> = (0..=200).collect();
    assert_eq!(elements(&tree), expected);
    assert_eq!(tree.sum(), 20100);
}

#[test]
fn full_tree_is_traversed_in_order() {
    let mut tree = Bst::new(8);
    for v in [4, 12, 2, 6, 10, 14, 1, 3, 5, 7, 9, 11, 13, 15] {
        tree.insert(v);
    }
    let mut it = tree.iter();
    let mut got = Vec::new();
    while let Some(value) = it.next() {
        got.push(*value);
    }
    let expected: Vec<i32> = (1..=15).collect();
    assert_eq!(got, expected);
}
