use std::cmp::Ordering;

use intersect_bio::ChromDict;

#[test]
fn dictionary_intersection_of_three_sources() {
    let first_ids = vec!["1", "2", "3", "4"];
    let second_ids = vec!["1", "2", "4"];
    let third_ids = vec!["2", "3", "4"];

    let dict = ChromDict::from_intersection(vec![first_ids, second_ids, third_ids]);

    assert_eq!(dict, ChromDict::from_ids(vec!["2", "4"]));
    assert_eq!(dict.compare(&("2", 100), &("4", 1)), Some(Ordering::Less));
    assert!(!dict.contains(&("1", 1)));
    assert!(!dict.contains(&("3", 1)));
}

#[test]
fn intersection_keeps_order_of_first_source() {
    let dict = ChromDict::from_intersection(vec![vec!["5", "3", "1"], vec!["1", "3", "5", "7"]]);
    assert_eq!(dict.compare(&("5", 9), &("3", 1)), Some(Ordering::Less));
    assert_eq!(dict.compare(&("1", 1), &("3", 9)), Some(Ordering::Greater));
    assert!(!dict.contains(&("7", 1)));
}

#[test]
fn intersection_of_no_source_is_empty() {
    let dict = ChromDict::from_intersection(Vec::<Vec<&str>>::new());
    assert_eq!(dict, ChromDict::new());
    assert!(!dict.contains(&("1", 1)));
}

#[test]
fn intersection_with_empty_source_is_empty() {
    let dict = ChromDict::from_intersection(vec![vec!["1", "2"], vec![]]);
    assert_eq!(dict, ChromDict::default());
}

#[test]
fn compare_orders_by_dictionary_then_position() {
    let dict = ChromDict::from_ids(vec!["1", "2"]);

    assert_eq!(dict.compare(&("1", 2), &("2", 1)), Some(Ordering::Less));
    assert_eq!(dict.compare(&("2", 5), &("2", 2)), Some(Ordering::Greater));
    assert_eq!(dict.compare(&("2", 5), &("2", 5)), Some(Ordering::Equal));
    assert_eq!(dict.compare(&("1", 2), &("3", 2)), None);
    assert_eq!(dict.compare(&("3", 2), &("1", 2)), None);
}

#[test]
fn compare_follows_insertion_order_not_names() {
    let dict = ChromDict::from_ids(vec!["X", "10", "2"]);
    assert_eq!(dict.compare(&("X", 500), &("10", 1)), Some(Ordering::Less));
    assert_eq!(dict.compare(&("2", 1), &("10", 500)), Some(Ordering::Greater));
}

#[test]
fn compare_is_antisymmetric() {
    let dict = ChromDict::from_ids(vec!["1", "2", "3"]);
    let positions = [("1", 1), ("1", 7), ("2", 1), ("3", 4), ("3", 4)];
    for a in positions.iter() {
        for b in positions.iter() {
            let ab = dict.compare(a, b).unwrap();
            let ba = dict.compare(b, a).unwrap();
            assert_eq!(ab, ba.reverse());
            assert_eq!(ab == Ordering::Equal, a == b);
        }
    }
}

#[test]
fn contains_checks_chromosome_only() {
    let dict = ChromDict::from_ids(vec!["1", "2"]);

    assert!(dict.contains(&("1", 34)));
    assert!(!dict.contains(&("3", 11)));
    assert!(dict.contains_id("2"));
    assert!(!dict.contains_id("22"));
}

#[test]
fn from_ids_keeps_first_occurrence() {
    let dict = ChromDict::from_ids(vec!["2", "1", "2", "3"]);
    assert_eq!(dict, ChromDict::from_ids(vec!["2", "1", "3"]));
    assert_eq!(dict.compare(&("2", 1), &("1", 1)), Some(Ordering::Less));
    assert_eq!(dict.compare(&("3", 1), &("1", 1)), Some(Ordering::Greater));
}

#[test]
fn intersect_subsets_dictionary() {
    let mut first_dict = ChromDict::from_ids(vec!["1", "2", "4", "5"]);
    let second_dict = ChromDict::from_ids(vec!["2", "3", "4"]);

    first_dict.intersect(&second_dict);
    assert_eq!(first_dict, ChromDict::from_ids(vec!["2", "4"]));
    assert!(!first_dict.contains(&("5", 1)));
}

#[test]
fn dictionary_construction_is_idempotent() {
    let ids = vec!["3", "1", "2"];
    let direct = ChromDict::from_ids(ids.clone());
    let with_itself = ChromDict::from_intersection(vec![ids.clone(), ids.clone()]);
    let alone = ChromDict::from_intersection(vec![ids]);

    assert_eq!(direct, with_itself);
    assert_eq!(direct, alone);
    assert_eq!(with_itself.compare(&("3", 9), &("1", 1)), Some(Ordering::Less));
    assert_eq!(with_itself.compare(&("2", 1), &("1", 9)), Some(Ordering::Greater));
}

#[test]
fn new_dictionary_is_empty() {
    let dict = ChromDict::new();
    assert!(!dict.contains(&("1", 1)));
    assert_eq!(dict.compare(&("1", 1), &("1", 1)), None);
}
