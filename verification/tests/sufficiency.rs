use rust_helpers::{check_sufficient_items, count_matching};

#[test]
fn test_check_sufficient_items() {
    let req_items = [("apple", 2), ("banana", 1), ("orange", 3)];
    let checked_vector = vec!["apple", "apple", "apple", "banana", "orange", "orange", "orange", "orange"];
    assert!(check_sufficient_items(&req_items, &checked_vector));

    let insufficient_items = vec![("apple", 3), ("banana", 1)];
    let insufficient_vector = vec!["apple", "banana", "orange"];
    assert!(!check_sufficient_items(&insufficient_items, &insufficient_vector));
}

#[test]
fn nothing_required_is_always_met() {
    let none: [(i32, usize); 0] = [];
    assert!(check_sufficient_items(&none, &[1, 2, 3]));
    assert!(check_sufficient_items(&none, &[]));
}

#[test]
fn zero_required_is_met_by_an_empty_collection() {
    assert!(check_sufficient_items(&[("pear", 0)], &[]));
    assert!(check_sufficient_items(&[("pear", 0)], &["fig"]));
}

#[test]
fn too_few_of_an_item_fails() {
    assert!(!check_sufficient_items(&[(4, 3)], &[4, 1, 4]));
    assert!(check_sufficient_items(&[(4, 2)], &[4, 1, 4]));
    assert!(!check_sufficient_items(&[(4, 1)], &[]));
}

#[test]
fn repeated_requirements_are_not_added_up() {
    assert!(check_sufficient_items(&[(4, 2), (4, 2)], &[4, 4]));
    assert!(!check_sufficient_items(&[(4, 2), (4, 3)], &[4, 4]));
}

#[test]
fn order_and_unnamed_items_do_not_matter() {
    assert!(check_sufficient_items(&[(1, 2), (2, 1)], &[9, 2, 1, 9, 1]));
    assert!(check_sufficient_items(&[(2, 1), (1, 2)], &[1, 1, 2, 9, 9]));
}

#[test]
fn a_late_unmet_requirement_fails_the_list() {
    assert!(!check_sufficient_items(&[(1, 1), (2, 1), (3, 1)], &[1, 2]));
}

#[test]
fn count_matching_counts_equal_items() {
    assert_eq!(count_matching(&[4, 1, 4, 4], &4), 3);
    assert_eq!(count_matching(&[4, 1, 4, 4], &7), 0);
    assert_eq!(count_matching(&[] as &[i32], &7), 0);
}
