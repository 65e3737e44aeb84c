use rust_algorithms::collection::binary_tree::BinarySearchTree;

#[test]
fn binary_tree_basics_push() {
    let mut tree: BinarySearchTree<usize, &str> = BinarySearchTree::new();
    tree.put(10, "T");
    tree.put(4, "D");
    tree.put(1, "A");
    tree.put(7, "K");
    tree.put(12, "U");

    assert_eq!(tree.length(), 5);
    let root = tree.root().expect("not null");
    assert_eq!(root.key().clone(), 10);

    assert_eq!(root.value().to_string(), "T".to_string());

    let root_left_child = root.left().expect("not null");
    assert_eq!(root_left_child.key().clone(), 4);

    assert_eq!(root_left_child.value().to_string(), "D".to_string());

    let root_right_child = root.right().expect("not null");
    assert_eq!(root_right_child.key().clone(), 12);

    assert_eq!(root_right_child.value().to_string(), "U".to_string());

    let child_left_child = root_left_child.left().expect("not null");
    assert_eq!(child_left_child.key().clone(), 1);

    assert_eq!(child_left_child.value().to_string(), "A".to_string());

    let child_right_child = root_left_child.right().expect("not null");
    assert_eq!(child_right_child.key().clone(), 7);

    assert_eq!(child_right_child.value().to_string(), "K".to_string());
}

#[test]
fn binary_tree_basics_get() {
    let mut tree: BinarySearchTree<usize, &str> = BinarySearchTree::new();
    tree.put(10, "T");
    tree.put(4, "D");
    tree.put(1, "A");
    tree.put(7, "K");

    let result = tree.get(7).copied().unwrap_or("IT IS EMPTY");

    assert_eq!(result.to_string(), "K".to_string());
}

#[test]
fn basics_min() {
    let mut tree: BinarySearchTree<usize, &str> = BinarySearchTree::new();
    tree.put(10, "T");
    tree.put(4, "D");
    tree.put(1, "A");
    tree.put(7, "K");

    let result = tree.min().copied().unwrap_or("IT IS EMPTY");

    assert_eq!(result.to_string(), "A".to_string());
}

#[test]
fn basics_max() {
    let mut tree: BinarySearchTree<usize, &str> = BinarySearchTree::new();
    tree.put(10, "T");
    tree.put(4, "D");
    tree.put(1, "A");
    tree.put(7, "K");

    let result = tree.max().copied().unwrap_or("IT IS EMPTY");

    assert_eq!(result.to_string(), "T".to_string());
}

#[test]
fn binary_tree_basics_delete_min() {
    // GIVEN
    let mut tree: BinarySearchTree<usize, &str> = BinarySearchTree::new();
    tree.put(10, "T");
    tree.put(4, "D");
    tree.put(1, "A");
    tree.put(7, "K");

    let result = tree.min().copied().unwrap_or("IT IS EMPTY");

    assert_eq!(result.to_string(), "A".to_string());

    // WHEN
    tree.delete_min();

    // THEN
    let result = tree.min().copied().unwrap_or("IT IS EMPTY");

    assert_eq!(result.to_string(), "D".to_string());
}

#[test]
fn basics_delete() {
    // GIVEN
    let mut tree: BinarySearchTree<usize, &str> = BinarySearchTree::new();
    tree.put(10, "T");
    tree.put(4, "D");
    tree.put(1, "A");
    tree.put(7, "K");

    let result = tree.get(7).copied().unwrap_or("IT IS EMPTY");

    assert_eq!(result.to_string(), "K".to_string());

    // WHEN
    tree.delete(7);

    // THEN
    let result = tree.get(7).copied();

    assert!(result.is_none());
}

fn sample() -> BinarySearchTree<i32, char> {
    let mut tree: BinarySearchTree<i32, char> = BinarySearchTree::default();
    for (key, value) in [(50, 'm'), (30, 'g'), (70, 's'), (20, 'c'), (40, 'j'), (60, 'p'), (80, 'w')] {
        tree.put(key, value);
    }
    tree
}

#[test]
fn tree_without_keys_finds_nothing() {
    let mut tree: BinarySearchTree<i32, char> = BinarySearchTree::new();

    assert_eq!(tree.get(1), None);
    assert_eq!(tree.min(), None);
    assert_eq!(tree.max(), None);
    assert!(tree.root().is_none());
    tree.delete_min();
    tree.delete(1);
    assert_eq!(tree.length(), 0);
}

#[test]
fn put_replaces_the_value_of_a_key_in_the_tree() {
    let mut tree = sample();

    tree.put(40, 'x');

    assert_eq!(tree.get(40), Some(&'x'));
    assert_eq!(tree.get(30), Some(&'g'));
    assert_eq!(tree.length(), 8);
    assert_eq!(tree.root().expect("a root").left().expect("a node").key(), &30);
}

#[test]
fn delete_of_a_key_with_two_sides_keeps_all_others() {
    let mut tree = sample();

    tree.delete(50);

    assert_eq!(tree.get(50), None);
    for (key, value) in [(30, 'g'), (70, 's'), (20, 'c'), (40, 'j'), (60, 'p'), (80, 'w')] {
        assert_eq!(tree.get(key), Some(&value));
    }
    let root = tree.root().expect("a root");
    assert_eq!(root.key(), &60);
    assert_eq!(root.value(), &'p');
    assert_eq!(root.right().expect("a node").key(), &70);
    assert!(root.right().expect("a node").left().is_none());
}

#[test]
fn delete_of_a_key_whose_right_side_has_no_left_side() {
    let mut tree: BinarySearchTree<i32, char> = BinarySearchTree::new();
    for (key, value) in [(5, 'a'), (3, 'b'), (8, 'c'), (9, 'd')] {
        tree.put(key, value);
    }

    tree.delete(5);

    let root = tree.root().expect("a root");
    assert_eq!(root.key(), &8);
    assert_eq!(root.left().expect("a node").key(), &3);
    assert_eq!(root.right().expect("a node").key(), &9);
    assert_eq!(tree.get(9), Some(&'d'));
    assert_eq!(tree.get(5), None);
    assert_eq!(tree.min(), Some(&'b'));
    assert_eq!(tree.max(), Some(&'d'));
}

#[test]
fn delete_of_a_key_with_one_side_lifts_that_side() {
    let mut tree: BinarySearchTree<i32, char> = BinarySearchTree::new();
    for (key, value) in [(5, 'a'), (3, 'b'), (2, 'c'), (8, 'd'), (9, 'e')] {
        tree.put(key, value);
    }

    tree.delete(3);
    tree.delete(8);
    tree.delete(100);

    let root = tree.root().expect("a root");
    assert_eq!(root.key(), &5);
    assert_eq!(root.left().expect("a node").key(), &2);
    assert_eq!(root.right().expect("a node").key(), &9);
    assert_eq!(tree.length(), 5);
}

#[test]
fn delete_min_goes_through_the_keys_in_ascending_order() {
    let mut tree = sample();

    let mut seen = Vec::new();
    while let Some(value) = tree.min().copied() {
        seen.push(value);
        tree.delete_min();
    }

    assert_eq!(seen, vec!['c', 'g', 'j', 'm', 'p', 's', 'w']);
    assert_eq!(tree.max(), None);
}

#[test]
fn clean_takes_every_key_out() {
    let mut tree = sample();

    tree.clean();

    assert!(tree.root().is_none());
    assert_eq!(tree.get(50), None);
    assert_eq!(tree.length(), 7);
    tree.put(1, 'a');
    assert_eq!(tree.min(), Some(&'a'));
}
