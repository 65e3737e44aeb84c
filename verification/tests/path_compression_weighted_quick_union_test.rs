use rust_algorithms::dynamic_connectivity::path_compression_weighted_quick_union::{
    PathCompressionWeightedQuickUnion,
};

#[test]
fn path_compression_weighted_quick_union_init_correctly() {
    let union_find = PathCompressionWeightedQuickUnion::new(10);

    assert_eq!(union_find.objects(), &vec![0, 1, 2, 3, 4, 5, 6, 7, 8, 9]);
}

#[test]
fn path_compression_weighted_quick_union_adding_object_as_index_with_same_value() {
    let mut union_find = PathCompressionWeightedQuickUnion::new(5);
    // as index starting from 0, the next val would be 5

    let result = union_find.add(5);

    assert!(result.is_ok());
    assert_eq!(union_find.objects(), &vec![0, 1, 2, 3, 4, 5]);
}

#[test]
fn path_compression_weighted_quick_union_adding_will_error_if_object_exist() {
    let mut union_find = PathCompressionWeightedQuickUnion::new(6);
    // as index starting from 0, the next val would be 6

    let result = union_find.add(5);

    assert!(result.is_err());

    assert_eq!(union_find.objects(), &vec![0, 1, 2, 3, 4, 5]);
}

#[test]
fn path_compression_weighted_quick_union_union_happy_path() {
    let mut quick_union = PathCompressionWeightedQuickUnion::from_parts(
        vec![0, 1, 2, 3, 4, 5],
        vec![1, 1, 1, 1, 1, 1],
    )
    .expect("a valid structure");

    let result = quick_union.union(&0, &3);

    assert!(result.is_ok());
    assert_eq!(quick_union.objects(), &vec![0, 1, 2, 0, 4, 5]);
    assert_eq!(quick_union.sizes(), &vec![2, 1, 1, 1, 1, 1]);
}

#[test]
fn path_compression_weighted_quick_union_union_long_happy_path() {
    let mut quick_union = PathCompressionWeightedQuickUnion::from_parts(
        vec![0, 1, 2, 3, 4, 5, 6, 7, 8, 9],
        vec![1, 1, 1, 1, 1, 1, 1, 1, 1, 1],
    )
    .expect("a valid structure");
    let _ = quick_union.union(&0, &3);
    let _ = quick_union.union(&3, &4);
    let _ = quick_union.union(&3, &1);
    let _ = quick_union.union(&1, &2);
    let _ = quick_union.union(&5, &6);
    let _ = quick_union.union(&7, &8);
    let _ = quick_union.union(&6, &8);

    let result = quick_union.union(&1, &8);

    assert!(result.is_ok());
    assert_eq!(quick_union.objects(), &vec![0, 0, 0, 0, 0, 0, 5, 5, 5, 9]);
    assert_eq!(quick_union.sizes(), &vec![9, 1, 1, 1, 1, 4, 1, 2, 1, 1]);
}

#[test]
fn path_compression_weighted_quick_union_union_first_object_is_missing() {
    let mut quick_union = PathCompressionWeightedQuickUnion::from_parts(
        vec![0, 1, 2, 3, 4, 5],
        vec![1, 1, 1, 1, 1, 1],
    )
    .expect("a valid structure");

    let result = quick_union.union(&9, &3);

    assert!(result.is_err());
    assert_eq!(quick_union.objects(), &vec![0, 1, 2, 3, 4, 5]);
}

#[test]
fn path_compression_weighted_quick_union_union_second_object_is_missing() {
    let mut quick_union = PathCompressionWeightedQuickUnion::from_parts(
        vec![0, 1, 2, 3, 4, 5],
        vec![1, 1, 1, 1, 1, 1],
    )
    .expect("a valid structure");

    let result = quick_union.union(&0, &9);

    assert!(result.is_err());
    assert_eq!(quick_union.objects(), &vec![0, 1, 2, 3, 4, 5]);
}

#[test]
fn path_compression_weighted_quick_union_union_happy_several_existing_areas() {
    let mut quick_union = PathCompressionWeightedQuickUnion::from_parts(
        vec![0, 1, 2, 2, 2, 5, 6, 6, 6, 8, 9],
        vec![1, 1, 3, 3, 3, 1, 3, 3, 3, 1, 1],
    )
    .expect("a valid structure");

    let result = quick_union.union(&2, &7);

    assert!(result.is_ok());
    assert_eq!(quick_union.objects(), &vec![0, 1, 2, 2, 2, 5, 2, 6, 6, 8, 9]);
}

#[test]
fn path_compression_weighted_quick_union_union_happy_several_existing_areas_bigger_connected_to_small() {
    let mut quick_union = PathCompressionWeightedQuickUnion::from_parts(
        vec![0, 1, 2, 2, 2, 3, 6, 6, 6, 8, 9],
        vec![1, 1, 4, 4, 4, 1, 3, 3, 3, 1, 1],
    )
    .expect("a valid structure");

    let result = quick_union.union(&2, &7);

    assert!(result.is_ok());
    assert_eq!(quick_union.objects(), &vec![0, 1, 2, 2, 2, 3, 2, 6, 6, 8, 9]);
}

#[test]
fn path_compression_weighted_quick_union_connected_will_return_false_when_values_are_different() {
    let mut quick_union = PathCompressionWeightedQuickUnion::from_parts(
        vec![0, 1, 2, 3, 4],
        vec![1, 1, 1, 1, 1],
    )
    .expect("a valid structure");

    let result = quick_union.connected(&0, &1);

    assert!(result.is_ok());
    assert!(!result.ok().expect("value"));
}

#[test]
fn path_compression_weighted_quick_union_connected_will_return_true_when_values_are_same() {
    let mut quick_union = PathCompressionWeightedQuickUnion::from_parts(
        vec![0, 3, 3, 3, 4],
        vec![1, 3, 3, 3, 1],
    )
    .expect("a valid structure");

    let result = quick_union.connected(&1, &3);

    assert!(result.is_ok());
    assert!(result.ok().expect("value"));
}

#[test]
fn path_compression_weighted_quick_union_connected_will_return_false_when_parents_are_different() {
    let mut quick_union = PathCompressionWeightedQuickUnion::from_parts(
        vec![2, 0, 2, 3, 4, 4, 5, 6],
        vec![3, 3, 3, 1, 4, 4, 4, 4],
    )
    .expect("a valid structure");

    let result = quick_union.connected(&1, &7);

    assert!(result.is_ok());
    assert!(!result.ok().expect("value"));
}

#[test]
fn path_compression_weighted_quick_union_connected_will_return_true_when_parents_are_same() {
    let mut quick_union = PathCompressionWeightedQuickUnion::from_parts(
        vec![2, 0, 4, 3, 4, 4, 5, 6],
        vec![7, 7, 7, 7, 7, 7, 7, 7],
    )
    .expect("a valid structure");

    let result = quick_union.connected(&1, &7);

    assert!(result.is_ok());
    assert!(result.ok().expect("value"));
}

#[test]
fn path_compression_weighted_quick_union_connected_will_return_error_when_value_is_missing() {
    let mut quick_union = PathCompressionWeightedQuickUnion::from_parts(
        vec![0, 3, 3, 3, 4],
        vec![1, 3, 3, 3, 1],
    )
    .expect("a valid structure");

    let result = quick_union.connected(&1, &5);

    assert!(result.is_err());
}
