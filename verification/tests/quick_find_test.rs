use rust_algorithms::dynamic_connectivity::quick_find::QuickFind;
use rust_algorithms::dynamic_connectivity::union_find::UnionFind;

#[test]
fn quick_find_init_correctly() {
    let union_find = QuickFind::new(10);

    let quick_find = &union_find;
    assert_eq!(quick_find.objects(), &vec![0, 1, 2, 3, 4, 5, 6, 7, 8, 9]);
}

#[test]
fn quick_find_adding_object_as_index_with_same_value() {
    let mut union_find = QuickFind::new(5);
    // as index starting from 0, the next val would be 5
    let result = union_find.add(5);

    assert!(result.is_ok());
    let quick_find = &union_find;
    assert_eq!(quick_find.objects(), &vec![0, 1, 2, 3, 4, 5]);
}

#[test]
fn quick_find_adding_will_error_if_object_exist() {
    let mut union_find = QuickFind::new(6);
    // as index starting from 0, the next val would be 6
    let result = union_find.add(5);

    assert!(result.is_err());

    let quick_find = &union_find;
    assert_eq!(quick_find.objects(), &vec![0, 1, 2, 3, 4, 5]);
}

#[test]
fn quick_find_union_happy_path() {
    let mut quick_find = QuickFind::from_objects(vec![0, 1, 2, 3, 4]).expect("a valid structure");

    let result = quick_find.union(&0, &3);

    assert!(result.is_ok());
    assert_eq!(quick_find.objects(), &vec![3, 1, 2, 3, 4]);
}

#[test]
fn quick_find_union_first_object_is_missing() {
    let mut quick_find = QuickFind::from_objects(vec![0, 1, 2, 3, 4]).expect("a valid structure");
    let result = quick_find.union(&9, &3);

    assert!(result.is_err());
    assert_eq!(quick_find.objects(), &vec![0, 1, 2, 3, 4]);
}

#[test]
fn quick_find_union_second_object_is_missing() {
    let mut quick_find = QuickFind::from_objects(vec![0, 1, 2, 3, 4]).expect("a valid structure");
    let result = quick_find.union(&0, &9);

    assert!(result.is_err());
    assert_eq!(quick_find.objects(), &vec![0, 1, 2, 3, 4]);
}

#[test]
fn quick_find_union_happy_several_existing_areas() {
    let mut quick_find = QuickFind::from_objects(vec![0, 1, 2, 2, 2, 5, 6, 6, 6, 8, 9])
        .expect("a valid structure");

    let result = quick_find.union(&2, &7);

    assert!(result.is_ok());
    assert_eq!(quick_find.objects(), &vec![0, 1, 6, 6, 6, 5, 6, 6, 6, 8, 9]);
}

#[test]
fn quick_find_connected_will_return_false_when_values_are_different() {
    let quick_find = QuickFind::from_objects(vec![0, 1, 2, 3, 4]).expect("a valid structure");

    let result = quick_find.connected(&0, &1);

    assert!(result.is_ok());
    assert!(!result.ok().expect("value"));
}

#[test]
fn quick_find_connected_will_return_true_when_values_are_same() {
    let quick_find = QuickFind::from_objects(vec![0, 3, 3, 3, 4]).expect("a valid structure");

    let result = quick_find.connected(&1, &3);

    assert!(result.is_ok());
    assert!(result.ok().expect("value"));
}
