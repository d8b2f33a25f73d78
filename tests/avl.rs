use data_structures::{Node, Tree};

fn child(link: &Option<Box<Node>>) -> &Node {
    link.as_ref().expect("child present")
}

// Walks a subtree, checks order, balance and cached heights, and returns
// its height.
fn check_subtree(link: &Option<Box<Node>>, lo: Option<i32>, hi: Option<i32>) -> i32 {
    match link {
        None => 0,
        Some(n) => {
            if let Some(lo) = lo {
                assert!(n.value > lo);
            }
            if let Some(hi) = hi {
                assert!(n.value < hi);
            }
            let hl = check_subtree(&n.left, lo, Some(n.value));
            let hr = check_subtree(&n.right, Some(n.value), hi);
            assert!((hl - hr).abs() <= 1);
            assert_eq!(n.height, 1 + hl.max(hr));
            assert_eq!(n.balance_factor(), hl - hr);
            n.height
        }
    }
}

#[test]
fn scenario_mixed_inserts_rebalance_around_thirty() {
    let mut tree = Tree::new();
    for v in [10, 20, 30, 40, 50, 25] {
        tree.insert(v);
    }
    assert!(tree.search(20));
    assert!(!tree.search(15));
    let root = child(tree.root());
    assert_eq!(root.value, 30);
    let left = child(&root.left);
    assert_eq!(left.value, 20);
    assert_eq!(child(&left.left).value, 10);
    assert_eq!(child(&left.right).value, 25);
    let right = child(&root.right);
    assert_eq!(right.value, 40);
    assert!(right.left.is_none());
    assert_eq!(child(&right.right).value, 50);
    assert_eq!(root.balance_factor(), 0);
    assert_eq!(check_subtree(tree.root(), None, None), 3);
}

#[test]
fn ascending_run_has_height_three() {
    let mut tree = Tree::new();
    for v in 1..=7 {
        tree.insert(v);
    }
    assert_eq!(Node::height(tree.root()), 3);
    assert_eq!(child(tree.root()).value, 4);
    for v in 1..=7 {
        assert!(tree.search(v));
    }
}

#[test]
fn empty_tree_finds_nothing() {
    let tree = Tree::new();
    assert!(tree.root().is_none());
    assert_eq!(Node::height(tree.root()), 0);
    for v in [0, 1, -1, 42, i32::MIN, i32::MAX] {
        assert!(!tree.search(v));
    }
}

#[test]
fn search_finds_exactly_inserted_values() {
    let values = [50, -3, 17, 88, 0, -40, 23, 61, 9, 12];
    let mut tree = Tree::new();
    for v in values {
        tree.insert(v);
    }
    for v in -60..100 {
        assert_eq!(tree.search(v), values.contains(&v));
    }
}

#[test]
fn duplicate_insert_changes_nothing() {
    let mut tree = Tree::new();
    for v in [5, 3, 8, 1, 4] {
        tree.insert(v);
    }
    let height = Node::height(tree.root());
    tree.insert(4);
    tree.insert(4);
    assert_eq!(Node::height(tree.root()), height);
    assert_eq!(child(tree.root()).value, 5);
    for v in 0..10 {
        assert_eq!(tree.search(v), [5, 3, 8, 1, 4].contains(&v));
    }
}

#[test]
fn invariants_hold_after_each_insert() {
    let mut tree = Tree::new();
    let mut x: i64 = 7;
    for _ in 0..300 {
        x = (x * 1103515245 + 12345) % 2147483648;
        tree.insert((x % 1000) as i32 - 500);
        check_subtree(tree.root(), None, None);
    }
}

#[test]
fn height_stays_within_avl_bound() {
    let mut tree = Tree::new();
    let n: i32 = 1000;
    for v in 0..n {
        tree.insert(v);
    }
    let h = check_subtree(tree.root(), None, None);
    let bound = 1.4405 * ((n + 2) as f64).log2();
    assert!((h as f64) <= bound);
    assert_eq!(h, 10);
}

#[test]
fn left_right_case_promotes_middle_value() {
    let mut tree = Tree::new();
    for v in [30, 10, 20] {
        tree.insert(v);
    }
    let root = child(tree.root());
    assert_eq!(root.value, 20);
    assert_eq!(child(&root.left).value, 10);
    assert_eq!(child(&root.right).value, 30);
    assert_eq!(root.height, 2);
}

#[test]
fn right_left_case_promotes_middle_value() {
    let mut tree = Tree::new();
    for v in [10, 30, 20] {
        tree.insert(v);
    }
    let root = child(tree.root());
    assert_eq!(root.value, 20);
    assert_eq!(child(&root.left).value, 10);
    assert_eq!(child(&root.right).value, 30);
    assert_eq!(root.height, 2);
}

#[test]
fn extreme_values_are_stored() {
    let mut tree = Tree::new();
    tree.insert(i32::MAX);
    tree.insert(i32::MIN);
    tree.insert(0);
    assert!(tree.search(i32::MAX));
    assert!(tree.search(i32::MIN));
    assert!(tree.search(0));
    assert!(!tree.search(1));
    check_subtree(tree.root(), None, None);
}

#[test]
fn node_level_insert_and_search() {
    let leaf = Node::new(8);
    assert_eq!(leaf.height, 1);
    assert!(leaf.left.is_none() && leaf.right.is_none());
    assert_eq!(Node::height(&None), 0);
    let root = leaf.insert(9).insert(10);
    assert_eq!(root.value, 9);
    assert_eq!(root.height, 2);
    assert!(root.search(8) && root.search(9) && root.search(10));
    assert!(!root.search(11));
}
