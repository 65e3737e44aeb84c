use rust_algorithms::sort::insertion_sort;
use rust_algorithms::sort::merge_sort;
use rust_algorithms::sort::merge_sort_clone;
use rust_algorithms::sort::quick_sort;
use rust_algorithms::sort::selection_sort;
use rust_algorithms::sort::shell_sort;
use rust_algorithms::sort::shuffle_sort::{shuffle, shuffle_with};
use rust_algorithms::sort::three_way_quick_sort;

#[test]
fn insertion_sort_basics() {
    let array = vec![3, 2, 3, 4, 1, 6, 9, 0];

    let sorted = insertion_sort::sort(array);

    assert_eq!(sorted, vec![0, 1, 2, 3, 3, 4, 6, 9]);
}

#[test]
fn merge_sort_basics() {
    let array = vec![3, 2, 3, 4, 1, 6, 9, 0];

    let sorted = merge_sort::sort(array);

    assert_eq!(sorted, vec![0, 1, 2, 3, 3, 4, 6, 9]);
}

#[test]
fn merge_sort_clone_basics() {
    let array = vec![3, 2, 3, 4, 1, 6, 9, 0];

    let sorted = merge_sort_clone::sort(array);

    assert_eq!(sorted, vec![0, 1, 2, 3, 3, 4, 6, 9]);
}

#[test]
fn quick_sort_basics() {
    let array = vec![3, 2, 3, 4, 1, 6, 9, 0];

    let sorted = quick_sort::sort(array);

    assert_eq!(sorted, vec![0, 1, 2, 3, 3, 4, 6, 9]);
}

#[test]
fn selection_sort_basics() {
    let array = vec![3, 2, 3, 4, 1, 6, 9, 0];

    let sorted = selection_sort::sort(array);

    assert_eq!(sorted, vec![0, 1, 2, 3, 3, 4, 6, 9]);
}

#[test]
fn shell_sort_basics() {
    let array = vec![3, 2, 3, 4, 1, 6, 9, 0];

    let sorted = shell_sort::sort(array);

    assert_eq!(sorted, vec![0, 1, 2, 3, 3, 4, 6, 9]);
}

#[test]
fn shuffle_sort_basics() {
    let array = vec![3, 2, 3, 4, 1, 6, 9, 0];

    let sorted = shuffle(array);

    let mut in_any_order = sorted.clone();
    in_any_order.sort();
    assert_eq!(in_any_order, vec![0, 1, 2, 3, 3, 4, 6, 9]);
}

#[test]
fn order_is_different() {
    let array = vec![3, 2, 3, 4, 1, 6, 9, 0];

    let sorted = shuffle(array);

    assert_ne!(sorted, vec![3, 2, 3, 4, 1, 6, 9, 0]);
}

#[test]
fn three_way_quick_sort_basics() {
    let array = vec![3, 2, 3, 4, 1, 6, 9, 0];

    let sorted = three_way_quick_sort::sort(array);

    assert_eq!(sorted, vec![0, 1, 2, 3, 3, 4, 6, 9]);
}

#[test]
fn every_sort_orders_a_reversed_run_with_repeats() {
    let given = vec![9, 9, 8, 7, 7, 7, 6, 5, 4, 3, 3, 2, 1, 0, 0];
    let expected = vec![0, 0, 1, 2, 3, 3, 4, 5, 6, 7, 7, 7, 8, 9, 9];

    assert_eq!(insertion_sort::sort(given.clone()), expected);
    assert_eq!(selection_sort::sort(given.clone()), expected);
    assert_eq!(shell_sort::sort(given.clone()), expected);
    assert_eq!(merge_sort::sort(given.clone()), expected);
    assert_eq!(merge_sort_clone::sort(given.clone()), expected);
    assert_eq!(quick_sort::sort(given.clone()), expected);
    assert_eq!(three_way_quick_sort::sort(given.clone()), expected);
}

#[test]
fn every_sort_orders_forty_elements() {
    let mut given: Vec<u32> = Vec::new();
    let mut value: u32 = 17;
    for _ in 0..40 {
        value = (value * 31 + 7) % 101;
        given.push(value);
    }
    let mut expected = given.clone();
    expected.sort();

    assert_eq!(insertion_sort::sort(given.clone()), expected);
    assert_eq!(selection_sort::sort(given.clone()), expected);
    assert_eq!(shell_sort::sort(given.clone()), expected);
    assert_eq!(merge_sort::sort(given.clone()), expected);
    assert_eq!(merge_sort_clone::sort(given.clone()), expected);
    assert_eq!(quick_sort::sort(given.clone()), expected);
    assert_eq!(three_way_quick_sort::sort(given.clone()), expected);
}

#[test]
fn sorts_take_a_single_element() {
    assert_eq!(insertion_sort::sort(vec![5]), vec![5]);
    assert_eq!(selection_sort::sort(vec![5]), vec![5]);
    assert_eq!(shell_sort::sort(vec![5]), vec![5]);
    assert_eq!(merge_sort::sort(vec![5]), vec![5]);
    assert_eq!(merge_sort_clone::sort(vec![5]), vec![5]);
    assert_eq!(quick_sort::sort(vec![5]), vec![5]);
    assert_eq!(three_way_quick_sort::sort(vec![5]), vec![5]);
}

#[test]
fn sorts_that_take_no_element_return_none() {
    let nothing: Vec<i32> = Vec::new();

    assert_eq!(insertion_sort::sort(nothing.clone()), nothing);
    assert_eq!(selection_sort::sort(nothing.clone()), nothing);
    assert_eq!(shell_sort::sort(nothing.clone()), nothing);
    assert_eq!(merge_sort::sort(nothing.clone()), nothing);
    assert_eq!(merge_sort_clone::sort(nothing.clone()), nothing);
}

#[test]
fn shuffle_keeps_every_element() {
    let given: Vec<usize> = (0..100).collect();

    let mut shuffled = shuffle(given.clone());

    assert_eq!(shuffled.len(), 100);
    shuffled.sort();
    assert_eq!(shuffled, given);
}

#[test]
fn sorts_order_strings() {
    let given = vec!["pear", "apple", "fig", "apple", "kiwi"];
    let expected = vec!["apple", "apple", "fig", "kiwi", "pear"];

    assert_eq!(insertion_sort::sort(given.clone()), expected);
    assert_eq!(merge_sort::sort(given.clone()), expected);
    assert_eq!(three_way_quick_sort::sort(given.clone()), expected);
}

#[test]
fn shuffle_with_makes_the_exchanges_that_the_draws_ask_for() {
    let given = vec!['a', 'b', 'c', 'd'];

    // place 0 with itself, 1 with 0, 2 with 1, 3 with 2
    assert_eq!(shuffle_with(given.clone(), &vec![0, 0, 1, 2]), vec!['b', 'c', 'd', 'a']);
    // every place with the first one
    assert_eq!(shuffle_with(given.clone(), &vec![0, 0, 0, 0]), vec!['d', 'a', 'b', 'c']);
    assert_eq!(shuffle_with(given.clone(), &vec![0, 1, 0, 1]), vec!['c', 'd', 'a', 'b']);
}

#[test]
fn shuffle_with_draws_of_each_place_itself_changes_nothing() {
    let given = vec![3, 2, 3, 4, 1, 6, 9, 0];

    assert_eq!(shuffle_with(given.clone(), &vec![0, 1, 2, 3, 4, 5, 6, 7]), given);
    assert_eq!(shuffle_with(Vec::<u8>::new(), &vec![]), Vec::<u8>::new());
}
