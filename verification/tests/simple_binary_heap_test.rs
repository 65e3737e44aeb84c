use rust_algorithms::collection::simple_binary_heap::SimpleBinaryHeap;
use rust_algorithms::sort::heap_sort;

#[test]
fn basics_add() {
    let array = vec!["T", "P", "R", "N", "H", "O", "A", "E", "I", "G", "S"];

    let mut binary_heap: SimpleBinaryHeap<&str> = SimpleBinaryHeap::new();
    for value in array {
        binary_heap.add(value);
    }
    assert_eq!(
        binary_heap.elements(),
        &vec!["T", "S", "R", "N", "P", "O", "A", "E", "I", "G", "H"]
    );
}

#[test]
fn simple_binary_heap_basics_delete_min() {
    let array = vec!["T", "P", "R", "N", "H", "O", "A", "E", "I", "G", "S"];

    let mut binary_heap: SimpleBinaryHeap<&str> = SimpleBinaryHeap::new();
    for value in array {
        binary_heap.add(value);
    }

    let removed = binary_heap.delete_min();
    assert_eq!(removed.to_string(), "H".to_string());

    assert_eq!(
        binary_heap.elements(),
        &vec!["T", "S", "R", "N", "P", "O", "A", "E", "I", "G"]
    );
}

#[test]
fn basics_delete_max() {
    let array = vec!["T", "P", "R", "N", "H", "O", "A", "E", "I", "G", "S"];

    let mut binary_heap: SimpleBinaryHeap<&str> = SimpleBinaryHeap::new();
    for value in array {
        binary_heap.add(value);
    }

    let removed = binary_heap.delete_max();
    assert_eq!(removed.to_string(), "T".to_string());

    assert_eq!(
        binary_heap.elements(),
        &vec!["S", "P", "R", "N", "H", "O", "A", "E", "I", "G"]
    );
}

#[test]
fn basics_delete_max_n() {
    let array = vec!["T", "P", "R", "N", "H", "O", "A", "E", "I", "G", "S"];

    let mut binary_heap: SimpleBinaryHeap<&str> = SimpleBinaryHeap::new();
    for value in array {
        binary_heap.add(value);
    }

    let removed = binary_heap.delete_max();
    assert_eq!(removed.to_string(), "T".to_string());
    let removed = binary_heap.delete_max();
    assert_eq!(removed.to_string(), "S".to_string());

    assert_eq!(
        binary_heap.elements(),
        &vec!["R", "P", "O", "N", "H", "G", "A", "E", "I"]
    );
}

#[test]
fn basics_delete_max_n_add() {
    let array = vec!["T", "P", "R", "N", "H", "O", "A", "E", "I", "G", "S"];

    let mut binary_heap: SimpleBinaryHeap<&str> = SimpleBinaryHeap::new();
    for value in array {
        binary_heap.add(value);
    }

    let removed = binary_heap.delete_max();
    assert_eq!(removed.to_string(), "T".to_string());
    let removed = binary_heap.delete_max();
    assert_eq!(removed.to_string(), "S".to_string());

    binary_heap.add("S");
    assert_eq!(
        binary_heap.elements(),
        &vec!["S", "R", "O", "N", "P", "G", "A", "E", "I", "H"]
    );
}

#[test]
fn basics_from() {
    let array = vec!["S", "O", "R", "T", "E", "X", "A", "M", "P", "L", "E"];

    let binary_heap: SimpleBinaryHeap<&str> = SimpleBinaryHeap::from(array);

    assert_eq!(
        binary_heap.elements(),
        &vec!["X", "T", "S", "P", "L", "R", "A", "M", "O", "E", "E"]
    );
}

#[test]
fn basics_sort() {
    let array = vec!["S", "O", "R", "T", "E", "X", "A", "M", "P", "L", "E"];

    let binary_heap: SimpleBinaryHeap<&str> = SimpleBinaryHeap::from(array);
    let sorted = binary_heap.sort();
    assert_eq!(
        sorted,
        vec!["A", "E", "E", "L", "M", "O", "P", "R", "S", "T", "X"]
    );
}

#[test]
fn heap_sort_orders_what_the_heap_order_alone_does_not() {
    assert_eq!(heap_sort::sort(vec![3, 2, 1]), vec![1, 2, 3]);
    assert_eq!(heap_sort::sort(vec![1, 2, 3]), vec![1, 2, 3]);
    assert_eq!(heap_sort::sort(vec![2, 3, 1, 3, 0]), vec![0, 1, 2, 3, 3]);
    assert_eq!(heap_sort::sort(vec![7]), vec![7]);
}

#[test]
fn heap_sort_orders_forty_elements() {
    let mut given: Vec<u32> = Vec::new();
    let mut value: u32 = 5;
    for _ in 0..40 {
        value = (value * 37 + 11) % 103;
        given.push(value);
    }
    let mut expected = given.clone();
    expected.sort();

    assert_eq!(heap_sort::sort(given), expected);
}

#[test]
fn heap_gives_its_elements_back_greatest_first() {
    let mut heap: SimpleBinaryHeap<u8> = SimpleBinaryHeap::default();
    for value in [4, 9, 1, 7, 9, 3] {
        heap.add(value);
    }

    assert_eq!(heap.delete_max(), 9);
    assert_eq!(heap.delete_max(), 9);
    assert_eq!(heap.delete_max(), 7);
    assert_eq!(heap.delete_max(), 4);
    assert_eq!(heap.delete_max(), 3);
    assert_eq!(heap.delete_max(), 1);
    assert!(heap.elements().is_empty());
}
