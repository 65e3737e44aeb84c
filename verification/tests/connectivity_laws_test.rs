use rust_algorithms::dynamic_connectivity::path_compression_weighted_quick_union::{
    PathCompressionWeightedQuickUnion,
};
use rust_algorithms::dynamic_connectivity::quick_find::QuickFind;
use rust_algorithms::dynamic_connectivity::quick_union::QuickUnion;
use rust_algorithms::dynamic_connectivity::union_find::UnionFind;
use rust_algorithms::dynamic_connectivity::weighted_quick_union::WeightedQuickUnion;
use rust_algorithms::AlgoError;

fn scenario() -> Vec<(usize, usize)> {
    vec![
        (4, 3),
        (3, 8),
        (6, 5),
        (9, 4),
        (2, 1),
        (8, 9),
        (5, 0),
        (7, 2),
        (6, 1),
        (1, 0),
        (6, 7),
    ]
}

fn same_component(a: usize, b: usize) -> bool {
    let first = [0, 1, 2, 5, 6, 7];
    let second = [3, 4, 8, 9];
    (first.contains(&a) && first.contains(&b)) || (second.contains(&a) && second.contains(&b))
}

fn root_weight(objects: &Vec<usize>, sizes: &Vec<usize>) -> usize {
    let mut weight = 0;
    for index in 0..objects.len() {
        if objects[index] == index {
            weight += sizes[index];
        }
    }
    weight
}

fn tree_size(objects: &Vec<usize>, top: usize) -> usize {
    let mut members = 0;
    for start in 0..objects.len() {
        let mut current = start;
        while objects[current] != current {
            current = objects[current];
        }
        if current == top {
            members += 1;
        }
    }
    members
}

#[test]
fn scenario_partitions_ten_elements_in_two_with_weighted_quick_union() {
    let mut union_find = WeightedQuickUnion::new(10);
    for (first, second) in scenario() {
        assert!(union_find.union(&first, &second).is_ok());
    }

    for a in 0..10 {
        for b in 0..10 {
            assert_eq!(union_find.connected(&a, &b).expect("in range"), same_component(a, b));
        }
    }
    assert!(union_find.connected(&4, &3).expect("in range"));
    assert!(union_find.connected(&4, &9).expect("in range"));
    assert!(union_find.connected(&4, &8).expect("in range"));
    assert!(!union_find.connected(&6, &4).expect("in range"));
    assert!(!union_find.connected(&7, &4).expect("in range"));
    assert!(!union_find.connected(&2, &4).expect("in range"));
    assert!(union_find.connected(&7, &2).expect("in range"));
    assert!(union_find.connected(&7, &1).expect("in range"));
    assert!(union_find.connected(&7, &6).expect("in range"));
    assert!(union_find.connected(&7, &5).expect("in range"));
    assert!(union_find.connected(&7, &0).expect("in range"));
}

#[test]
fn scenario_partitions_ten_elements_in_two_with_path_halving() {
    let mut union_find = PathCompressionWeightedQuickUnion::new(10);
    for (first, second) in scenario() {
        assert!(union_find.union(&first, &second).is_ok());
    }

    for a in 0..10 {
        for b in 0..10 {
            assert_eq!(union_find.connected(&a, &b).expect("in range"), same_component(a, b));
        }
    }
}

#[test]
fn scenario_partitions_ten_elements_in_two_with_quick_find_and_quick_union() {
    let mut quick_find = QuickFind::new(10);
    let mut quick_union = QuickUnion::new(10);
    for (first, second) in scenario() {
        assert!(quick_find.union(&first, &second).is_ok());
        assert!(quick_union.union(&first, &second).is_ok());
    }

    for a in 0..10 {
        for b in 0..10 {
            assert_eq!(quick_find.connected(&a, &b).expect("in range"), same_component(a, b));
            assert_eq!(quick_union.connected(&a, &b).expect("in range"), same_component(a, b));
        }
    }
}

#[test]
fn every_element_is_connected_to_itself() {
    let quick_find = QuickFind::new(7);
    let quick_union = QuickUnion::new(7);
    let weighted = WeightedQuickUnion::new(7);
    let mut halving = PathCompressionWeightedQuickUnion::new(7);

    for i in 0..7 {
        assert_eq!(quick_find.connected(&i, &i).ok(), Some(true));
        assert_eq!(quick_union.connected(&i, &i).ok(), Some(true));
        assert_eq!(weighted.connected(&i, &i).ok(), Some(true));
        assert_eq!(halving.connected(&i, &i).ok(), Some(true));
    }
}

#[test]
fn connected_does_not_depend_on_the_order_of_its_operands() {
    let mut quick_find = QuickFind::new(6);
    let mut quick_union = QuickUnion::new(6);
    let mut weighted = WeightedQuickUnion::new(6);
    let mut halving = PathCompressionWeightedQuickUnion::new(6);
    for (first, second) in [(0, 5), (2, 3), (5, 2)] {
        quick_find.union(&first, &second).expect("in range");
        quick_union.union(&first, &second).expect("in range");
        weighted.union(&first, &second).expect("in range");
        halving.union(&first, &second).expect("in range");
    }

    for a in 0..6 {
        for b in 0..6 {
            assert_eq!(quick_find.connected(&a, &b).ok(), quick_find.connected(&b, &a).ok());
            assert_eq!(quick_union.connected(&a, &b).ok(), quick_union.connected(&b, &a).ok());
            assert_eq!(weighted.connected(&a, &b).ok(), weighted.connected(&b, &a).ok());
            let one_way = halving.connected(&a, &b).ok();
            assert_eq!(one_way, halving.connected(&b, &a).ok());
        }
    }
}

#[test]
fn two_unions_through_one_element_connect_the_outer_two() {
    let mut quick_find = QuickFind::new(5);
    let mut quick_union = QuickUnion::new(5);
    let mut weighted = WeightedQuickUnion::new(5);
    let mut halving = PathCompressionWeightedQuickUnion::new(5);

    assert!(quick_find.union(&1, &4).is_ok() && quick_find.union(&4, &2).is_ok());
    assert!(quick_union.union(&1, &4).is_ok() && quick_union.union(&4, &2).is_ok());
    assert!(weighted.union(&1, &4).is_ok() && weighted.union(&4, &2).is_ok());
    assert!(halving.union(&1, &4).is_ok() && halving.union(&4, &2).is_ok());

    assert_eq!(quick_find.connected(&1, &2).ok(), Some(true));
    assert_eq!(quick_union.connected(&1, &2).ok(), Some(true));
    assert_eq!(weighted.connected(&1, &2).ok(), Some(true));
    assert_eq!(halving.connected(&1, &2).ok(), Some(true));
    assert_eq!(quick_find.connected(&1, &3).ok(), Some(false));
    assert_eq!(quick_union.connected(&1, &3).ok(), Some(false));
    assert_eq!(weighted.connected(&1, &3).ok(), Some(false));
    assert_eq!(halving.connected(&1, &3).ok(), Some(false));
}

#[test]
fn the_four_variants_answer_every_query_alike() {
    let count = 23;
    let mut quick_find = QuickFind::new(count);
    let mut quick_union = QuickUnion::new(count);
    let mut weighted = WeightedQuickUnion::new(count);
    let mut halving = PathCompressionWeightedQuickUnion::new(count);
    let mut seed: usize = 12345;
    for _ in 0..14 {
        seed = (seed * 1103 + 12347) % 100003;
        let first = seed % count;
        seed = (seed * 1103 + 12347) % 100003;
        let second = seed % count;
        quick_find.union(&first, &second).expect("in range");
        quick_union.union(&first, &second).expect("in range");
        weighted.union(&first, &second).expect("in range");
        halving.union(&first, &second).expect("in range");

        for a in 0..count {
            for b in 0..count {
                let expected = quick_find.connected(&a, &b).expect("in range");
                assert_eq!(quick_union.connected(&a, &b).expect("in range"), expected);
                assert_eq!(weighted.connected(&a, &b).expect("in range"), expected);
                assert_eq!(halving.connected(&a, &b).expect("in range"), expected);
            }
        }
    }
    assert_ne!(quick_union.objects(), weighted.objects());
}

#[test]
fn sizes_of_the_roots_add_up_to_the_number_of_elements() {
    let mut weighted = WeightedQuickUnion::new(9);
    let mut halving = PathCompressionWeightedQuickUnion::new(9);
    assert_eq!(root_weight(weighted.objects(), weighted.sizes()), 9);
    assert_eq!(root_weight(halving.objects(), halving.sizes()), 9);

    for (first, second) in [(0, 1), (2, 3), (1, 3), (3, 0), (8, 8), (7, 20), (4, 5), (5, 0)] {
        let _ = weighted.union(&first, &second);
        let _ = halving.union(&first, &second);
        assert_eq!(root_weight(weighted.objects(), weighted.sizes()), 9);
        assert_eq!(root_weight(halving.objects(), halving.sizes()), 9);
        let _ = halving.connected(&second, &first);
        assert_eq!(root_weight(halving.objects(), halving.sizes()), 9);
    }
    assert!(weighted.add(9).is_ok());
    assert!(halving.add(9).is_ok());
    assert!(weighted.add(3).is_err());
    assert!(halving.add(3).is_err());
    assert_eq!(root_weight(weighted.objects(), weighted.sizes()), 10);
    assert_eq!(root_weight(halving.objects(), halving.sizes()), 10);
}

#[test]
fn every_root_records_the_size_of_its_tree() {
    let mut weighted = WeightedQuickUnion::new(8);
    let mut halving = PathCompressionWeightedQuickUnion::new(8);
    for (first, second) in [(0, 1), (2, 3), (1, 3), (3, 0), (6, 7), (7, 0), (5, 5)] {
        weighted.union(&first, &second).expect("in range");
        halving.union(&first, &second).expect("in range");
    }

    for top in 0..8 {
        if weighted.objects()[top] == top {
            assert_eq!(weighted.sizes()[top], tree_size(weighted.objects(), top));
        }
        if halving.objects()[top] == top {
            assert_eq!(halving.sizes()[top], tree_size(halving.objects(), top));
        }
    }
    assert_eq!(weighted.sizes()[0], 6);
}

#[test]
fn no_element_is_deeper_than_the_logarithm_of_the_number_of_elements() {
    let count = 64;
    let mut weighted = WeightedQuickUnion::new(count);
    let mut halving = PathCompressionWeightedQuickUnion::new(count);
    // pairs, then pairs of pairs, and so on: the deepest trees that merging
    // by size can make
    let mut step = 1;
    while step < count {
        let mut first = 0;
        while first + step < count {
            weighted.union(&(first + step), &first).expect("in range");
            halving.union(&(first + step), &first).expect("in range");
            first += 2 * step;
        }
        step *= 2;
    }

    let mut deepest = 0;
    for start in 0..count {
        let mut depth = 0;
        let mut current = start;
        while weighted.objects()[current] != current {
            current = weighted.objects()[current];
            depth += 1;
        }
        assert!(1usize << depth <= count);
        deepest = deepest.max(depth);
        let mut depth = 0;
        let mut current = start;
        while halving.objects()[current] != current {
            current = halving.objects()[current];
            depth += 1;
        }
        assert!(1usize << depth <= count);
    }
    assert_eq!(deepest, 6);
}

#[test]
fn union_of_connected_elements_leaves_the_sizes_alone() {
    let mut weighted = WeightedQuickUnion::new(4);
    weighted.union(&0, &1).expect("in range");
    let objects = weighted.objects().clone();
    let sizes = weighted.sizes().clone();

    assert!(weighted.union(&1, &0).is_ok());
    assert!(weighted.union(&1, &1).is_ok());

    assert_eq!(weighted.objects(), &objects);
    assert_eq!(weighted.sizes(), &sizes);
    assert_eq!(weighted.sizes(), &vec![2, 1, 1, 1]);
}

#[test]
fn weighted_union_hangs_the_smaller_tree_under_the_larger() {
    let mut weighted = WeightedQuickUnion::new(5);
    weighted.union(&3, &4).expect("in range");

    // the tree of 0 is the smaller one, though 0 is the first operand
    weighted.union(&0, &4).expect("in range");
    assert_eq!(weighted.objects(), &vec![3, 1, 2, 3, 3]);
    assert_eq!(weighted.sizes(), &vec![1, 1, 1, 3, 1]);

    // on equal sizes the root of the first operand stays a root
    weighted.union(&2, &1).expect("in range");
    assert_eq!(weighted.objects(), &vec![3, 2, 2, 3, 3]);
    assert_eq!(weighted.sizes(), &vec![1, 1, 2, 3, 1]);
}

#[test]
fn quick_find_keeps_the_identifier_of_the_second_operand() {
    let mut quick_find = QuickFind::new(4);

    quick_find.union(&0, &3).expect("in range");
    quick_find.union(&3, &1).expect("in range");

    assert_eq!(quick_find.objects(), &vec![1, 1, 2, 1]);
}

#[test]
fn quick_union_hangs_the_first_root_under_the_second() {
    let mut quick_union = QuickUnion::new(4);

    quick_union.union(&0, &3).expect("in range");
    quick_union.union(&3, &1).expect("in range");
    quick_union.union(&0, &2).expect("in range");

    assert_eq!(quick_union.objects(), &vec![3, 2, 2, 1]);
}

#[test]
fn a_query_with_path_halving_moves_every_other_element_up() {
    let mut halving = PathCompressionWeightedQuickUnion::from_parts(
        vec![0, 0, 1, 2, 3, 4],
        vec![6, 1, 1, 1, 1, 1],
    )
    .expect("a valid structure");

    // from 5 the way to the root is walked once for each operand
    assert_eq!(halving.connected(&5, &0).ok(), Some(true));

    assert_eq!(halving.objects(), &vec![0, 0, 1, 1, 3, 3]);
    assert_eq!(halving.sizes(), &vec![6, 1, 1, 1, 1, 1]);
    assert_eq!(halving.connected(&4, &5).ok(), Some(true));
    assert_eq!(halving.objects(), &vec![0, 0, 1, 1, 1, 1]);
    assert_eq!(halving.connected(&2, &2).ok(), Some(true));
    assert_eq!(halving.objects(), &vec![0, 0, 0, 1, 1, 1]);
}

#[test]
fn add_takes_the_next_identifier_only() {
    let mut quick_find = QuickFind::new(3);
    let mut quick_union = QuickUnion::new(3);
    let mut weighted = WeightedQuickUnion::new(3);
    let mut halving = PathCompressionWeightedQuickUnion::new(3);

    assert!(quick_find.add(3).is_ok());
    assert!(quick_union.add(3).is_ok());
    assert!(weighted.add(3).is_ok());
    assert!(halving.add(3).is_ok());
    assert_eq!(quick_find.objects(), &vec![0, 1, 2, 3]);
    assert_eq!(quick_union.objects(), &vec![0, 1, 2, 3]);
    assert_eq!(weighted.objects(), &vec![0, 1, 2, 3]);
    assert_eq!(weighted.sizes(), &vec![1, 1, 1, 1]);
    assert_eq!(halving.objects(), &vec![0, 1, 2, 3]);
    assert_eq!(halving.sizes(), &vec![1, 1, 1, 1]);
    assert_eq!(quick_find.connected(&3, &3).ok(), Some(true));
    assert_eq!(quick_find.connected(&3, &2).ok(), Some(false));

    for existing in 0..4 {
        assert!(matches!(quick_find.add(existing), Err(AlgoError::ElementAlreadyExist(_))));
        assert!(matches!(quick_union.add(existing), Err(AlgoError::ElementAlreadyExist(_))));
        assert!(matches!(weighted.add(existing), Err(AlgoError::ElementAlreadyExist(_))));
        assert!(matches!(halving.add(existing), Err(AlgoError::ElementAlreadyExist(_))));
    }
    assert_eq!(quick_find.objects(), &vec![0, 1, 2, 3]);
    assert_eq!(weighted.sizes(), &vec![1, 1, 1, 1]);
    assert_eq!(halving.sizes(), &vec![1, 1, 1, 1]);
}

#[test]
fn add_on_an_empty_structure_starts_at_zero() {
    let mut quick_union = QuickUnion::new(0);

    assert!(quick_union.connected(&0, &0).is_err());
    assert!(quick_union.add(0).is_ok());
    assert_eq!(quick_union.connected(&0, &0).ok(), Some(true));
}

#[test]
fn errors_say_which_operand_is_missing() {
    let mut quick_find = QuickFind::new(5);
    let mut quick_union = QuickUnion::new(5);
    let mut weighted = WeightedQuickUnion::new(5);
    let mut halving = PathCompressionWeightedQuickUnion::new(5);
    let first = "first object with value 9 doesn't exist";
    let second = "second object with value 12 doesn't exist";
    let both = "first object with value 9 doesn't exist \n second object with value 12 doesn't exist";

    let cases = [(9, 3, first), (0, 12, second), (9, 12, both)];
    for (a, b, text) in cases {
        let errors = vec![
            quick_find.union(&a, &b).err().expect("an error"),
            quick_union.union(&a, &b).err().expect("an error"),
            weighted.union(&a, &b).err().expect("an error"),
            halving.union(&a, &b).err().expect("an error"),
            quick_find.connected(&a, &b).err().expect("an error"),
            quick_union.connected(&a, &b).err().expect("an error"),
            weighted.connected(&a, &b).err().expect("an error"),
            halving.connected(&a, &b).err().expect("an error"),
        ];
        for error in errors {
            assert!(matches!(error, AlgoError::MissingElement(_)));
            assert_eq!(error.to_readable_string(), text);
        }
    }
    assert_eq!(quick_find.objects(), &vec![0, 1, 2, 3, 4]);
    assert_eq!(quick_union.objects(), &vec![0, 1, 2, 3, 4]);
    assert_eq!(weighted.objects(), &vec![0, 1, 2, 3, 4]);
    assert_eq!(weighted.sizes(), &vec![1, 1, 1, 1, 1]);
    assert_eq!(halving.objects(), &vec![0, 1, 2, 3, 4]);
    assert_eq!(halving.sizes(), &vec![1, 1, 1, 1, 1]);
}

#[test]
fn the_first_index_out_of_range_is_the_number_of_elements() {
    let mut quick_union = QuickUnion::new(5);

    assert!(quick_union.union(&4, &4).is_ok());
    let error = quick_union.union(&5, &4).err().expect("an error");

    assert_eq!(error.to_readable_string(), "first object with value 5 doesn't exist");
}

#[test]
fn error_for_an_element_that_exists_names_it() {
    let mut quick_union = QuickUnion::new(1200);

    let error = quick_union.add(1024).err().expect("an error");

    assert!(matches!(error, AlgoError::ElementAlreadyExist(_)));
    assert_eq!(error.to_readable_string(), "object with value 1024 already exist");
    match error {
        AlgoError::ElementAlreadyExist(text) => {
            assert_eq!(text, "object with value 1024 already exist")
        }
        AlgoError::MissingElement(_) => unreachable!(),
    }
}

#[test]
fn numbers_in_messages_are_decimal() {
    let quick_find = QuickFind::new(1);

    let error = quick_find.connected(&usize::MAX, &0).err().expect("an error");
    assert_eq!(
        error.to_readable_string(),
        format!("first object with value {} doesn't exist", usize::MAX)
    );
    let error = quick_find.connected(&0, &10).err().expect("an error");
    assert_eq!(error.to_readable_string(), "second object with value 10 doesn't exist");
    let error = quick_find.connected(&0, &909).err().expect("an error");
    assert_eq!(error.to_readable_string(), "second object with value 909 doesn't exist");
}

#[test]
fn structures_are_shown_slot_by_slot() {
    let mut quick_union = QuickUnion::new(3);
    quick_union.union(&0, &2).expect("in range");
    let mut halving = PathCompressionWeightedQuickUnion::new(12);
    halving.union(&11, &10).expect("in range");

    assert_eq!(QuickFind::new(0).to_string(), "");
    assert_eq!(QuickFind::new(2).to_string(), "0:0, 1:1, ");
    assert_eq!(quick_union.to_string(), "0:2, 1:1, 2:2, ");
    assert_eq!(WeightedQuickUnion::new(1).to_string(), "0:0, ");
    assert_eq!(
        halving.to_string(),
        "0:0, 1:1, 2:2, 3:3, 4:4, 5:5, 6:6, 7:7, 8:8, 9:9, 10:11, 11:11, "
    );
}

#[test]
fn arrays_that_are_no_structure_are_turned_down() {
    // a parent that is no element
    assert!(QuickFind::from_objects(vec![0, 2]).is_none());
    assert!(QuickUnion::from_objects(vec![0, 2]).is_none());
    // a cycle
    assert!(QuickUnion::from_objects(vec![1, 0]).is_none());
    assert!(QuickUnion::from_objects(vec![0, 2, 3, 1]).is_none());
    assert!(WeightedQuickUnion::from_parts(vec![1, 2, 0], vec![1, 1, 1]).is_none());
    // not a size for each element
    assert!(WeightedQuickUnion::from_parts(vec![0, 1], vec![1]).is_none());
    assert!(PathCompressionWeightedQuickUnion::from_parts(vec![0], vec![1, 1]).is_none());
    // sizes of roots that do not add up in a machine word
    assert!(WeightedQuickUnion::from_parts(vec![0, 1], vec![usize::MAX, 1]).is_none());
    assert!(
        PathCompressionWeightedQuickUnion::from_parts(vec![0, 1], vec![usize::MAX, 1]).is_none()
    );
    // the size of an element that is no root does not count
    assert!(WeightedQuickUnion::from_parts(vec![0, 0], vec![usize::MAX, 1]).is_some());
    // a chain as long as the structure
    assert!(QuickUnion::from_objects(vec![0, 0, 1, 2, 3]).is_some());
    assert!(QuickUnion::from_objects(vec![]).is_some());
    assert!(QuickFind::from_objects(vec![1, 0]).is_some());
}

#[test]
fn a_structure_can_be_made_again_from_its_arrays() {
    let mut weighted = WeightedQuickUnion::new(6);
    for (first, second) in [(0, 1), (2, 3), (1, 3), (5, 4)] {
        weighted.union(&first, &second).expect("in range");
    }

    let again =
        WeightedQuickUnion::from_parts(weighted.objects().clone(), weighted.sizes().clone())
            .expect("a valid structure");

    assert_eq!(again.objects(), weighted.objects());
    assert_eq!(again.sizes(), weighted.sizes());
    assert_eq!(again.connected(&0, &3).ok(), Some(true));
    assert_eq!(again.connected(&0, &4).ok(), Some(false));
}

#[test]
fn adding_two_words() {
    assert_eq!(rust_algorithms::add(2, 2), 4);
    assert_eq!(rust_algorithms::add(0, usize::MAX), usize::MAX);
}
