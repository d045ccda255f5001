use rust_helpers::{
    chunk_vec, deal_vec, split_rand_hashset_eq, split_rand_vec, split_rand_vec_eq,
    try_split_rand_hashset_eq, try_split_rand_vec, try_split_rand_vec_eq, SplitError,
};
use std::collections::HashSet;

fn sorted(groups: &Vec<Vec<i32>>) -> Vec<i32> {
    let mut all: Vec<i32> = groups.iter().flatten().cloned().collect();
    all.sort();
    all
}

#[test]
fn test_split_rand_vec() {
    let vec = vec![1, 2, 3, 4, 5, 6, 7, 8];
    let chunked = split_rand_vec(vec, 3);
    assert_eq!(chunked.len(), 3);
    assert!(chunked.iter().all(|chunk| chunk.len() <= 3));
}

#[test]
fn test_split_rand_vec_eq() {
    let vec = vec![1, 2, 3, 4, 5, 6, 7];
    let chunked = split_rand_vec_eq(vec, 3);
    assert_eq!(chunked.len(), 3);
    assert_eq!(chunked[0].len(), 3);
    assert_eq!(chunked[1].len(), 2);
    assert_eq!(chunked[2].len(), 2);
}

#[test]
fn test_split_hashset_eq() {
    let vec: HashSet<i32> = [1, 2, 3, 4, 5, 6, 7].iter().cloned().collect();
    let chunked = split_rand_hashset_eq(vec, 3);
    assert_eq!(chunked.len(), 3);
    assert_eq!(chunked[0].len(), 3);
    assert_eq!(chunked[1].len(), 2);
    assert_eq!(chunked[2].len(), 2);
}

#[test]
fn fixed_size_split_of_eight_by_three() {
    let chunked = split_rand_vec(vec![1, 2, 3, 4, 5, 6, 7, 8], 3);
    let sizes: Vec<usize> = chunked.iter().map(|g| g.len()).collect();
    assert_eq!(sizes, vec![3, 3, 2]);
    assert_eq!(sorted(&chunked), vec![1, 2, 3, 4, 5, 6, 7, 8]);
}

#[test]
fn fixed_count_split_of_seven_in_three() {
    let chunked = split_rand_vec_eq(vec![1, 2, 3, 4, 5, 6, 7], 3);
    let sizes: Vec<usize> = chunked.iter().map(|g| g.len()).collect();
    assert_eq!(sizes, vec![3, 2, 2]);
    assert_eq!(sorted(&chunked), vec![1, 2, 3, 4, 5, 6, 7]);
}

#[test]
fn fixed_size_split_keeps_repeated_items() {
    let chunked = split_rand_vec(vec![5, 5, 5, 1, 1, 9], 4);
    assert_eq!(chunked.len(), 2);
    assert_eq!(chunked[0].len(), 4);
    assert_eq!(chunked[1].len(), 2);
    assert_eq!(sorted(&chunked), vec![1, 1, 5, 5, 5, 9]);
}

#[test]
fn fixed_count_split_keeps_repeated_items() {
    let chunked = split_rand_vec_eq(vec![5, 5, 5, 1, 1, 9], 4);
    let sizes: Vec<usize> = chunked.iter().map(|g| g.len()).collect();
    assert_eq!(sizes, vec![2, 2, 1, 1]);
    assert_eq!(sorted(&chunked), vec![1, 1, 5, 5, 5, 9]);
}

#[test]
fn set_split_places_each_element_once() {
    let set: HashSet<i32> = (1..=10).collect();
    let chunked = split_rand_hashset_eq(set, 4);
    let sizes: Vec<usize> = chunked.iter().map(|g| g.len()).collect();
    assert_eq!(sizes, vec![3, 3, 2, 2]);
    assert_eq!(sorted(&chunked), (1..=10).collect::<Vec<i32>>());
}

#[test]
fn shuffle_changes_the_order() {
    let given: Vec<i32> = (0..200).collect();
    let chunked = split_rand_vec(given.clone(), 200);
    assert_eq!(chunked.len(), 1);
    assert_ne!(chunked[0], given);
    assert_eq!(sorted(&chunked), given);
}

#[test]
fn shuffle_changes_the_order_of_a_deal() {
    let given: Vec<i32> = (0..200).collect();
    let chunked = split_rand_vec_eq(given.clone(), 1);
    assert_eq!(chunked.len(), 1);
    assert_ne!(chunked[0], given);
    assert_eq!(sorted(&chunked), given);
}

#[test]
fn empty_input_splits_into_no_chunks() {
    let chunked = split_rand_vec(Vec::<i32>::new(), 3);
    assert!(chunked.is_empty());
}

#[test]
fn empty_input_splits_into_empty_parts() {
    let chunked = split_rand_vec_eq(Vec::<i32>::new(), 3);
    assert_eq!(chunked, vec![Vec::<i32>::new(), Vec::new(), Vec::new()]);
    let from_set = split_rand_hashset_eq(HashSet::<i32>::new(), 2);
    assert_eq!(from_set, vec![Vec::<i32>::new(), Vec::new()]);
}

#[test]
fn more_parts_than_items() {
    let chunked = split_rand_vec_eq(vec![7, 8], 5);
    let sizes: Vec<usize> = chunked.iter().map(|g| g.len()).collect();
    assert_eq!(sizes, vec![1, 1, 0, 0, 0]);
    assert_eq!(sorted(&chunked), vec![7, 8]);
}

#[test]
fn chunk_size_larger_than_input() {
    let chunked = split_rand_vec(vec![7, 8], 5);
    assert_eq!(chunked.len(), 1);
    assert_eq!(sorted(&chunked), vec![7, 8]);
}

#[test]
fn chunk_vec_cuts_in_order() {
    assert_eq!(
        chunk_vec(vec![1, 2, 3, 4, 5, 6, 7, 8], 3),
        vec![vec![1, 2, 3], vec![4, 5, 6], vec![7, 8]]
    );
    assert_eq!(chunk_vec(vec![1, 2, 3, 4], 2), vec![vec![1, 2], vec![3, 4]]);
    assert_eq!(chunk_vec(vec![1, 2, 3], 1), vec![vec![1], vec![2], vec![3]]);
    assert_eq!(chunk_vec(Vec::<i32>::new(), 4), Vec::<Vec<i32>>::new());
}

#[test]
fn deal_vec_hands_out_in_turn() {
    assert_eq!(
        deal_vec(vec![1, 2, 3, 4, 5, 6, 7], 3),
        vec![vec![1, 4, 7], vec![2, 5], vec![3, 6]]
    );
    assert_eq!(deal_vec(vec![1, 2, 3], 1), vec![vec![1, 2, 3]]);
    assert_eq!(deal_vec(vec![1], 3), vec![vec![1], vec![], vec![]]);
}

#[test]
fn zero_chunk_size_is_refused() {
    assert_eq!(
        try_split_rand_vec(vec![1, 2, 3], 0),
        Err(SplitError::InvalidConfiguration)
    );
    assert_eq!(
        try_split_rand_vec(Vec::<i32>::new(), 0),
        Err(SplitError::InvalidConfiguration)
    );
}

#[test]
fn zero_parts_is_refused() {
    assert_eq!(
        try_split_rand_vec_eq(vec![1, 2, 3], 0),
        Err(SplitError::InvalidConfiguration)
    );
    let set: HashSet<i32> = (1..=3).collect();
    assert_eq!(
        try_split_rand_hashset_eq(set, 0),
        Err(SplitError::InvalidConfiguration)
    );
}

#[test]
fn checked_splits_succeed_on_positive_parameters() {
    let by_size = try_split_rand_vec(vec![1, 2, 3, 4, 5], 2).unwrap();
    assert_eq!(by_size.iter().map(|g| g.len()).collect::<Vec<usize>>(), vec![2, 2, 1]);
    assert_eq!(sorted(&by_size), vec![1, 2, 3, 4, 5]);
    let by_count = try_split_rand_vec_eq(vec![1, 2, 3, 4, 5], 2).unwrap();
    assert_eq!(by_count.iter().map(|g| g.len()).collect::<Vec<usize>>(), vec![3, 2]);
    assert_eq!(sorted(&by_count), vec![1, 2, 3, 4, 5]);
    let set: HashSet<i32> = (1..=5).collect();
    let of_set = try_split_rand_hashset_eq(set, 2).unwrap();
    assert_eq!(of_set.iter().map(|g| g.len()).collect::<Vec<usize>>(), vec![3, 2]);
    assert_eq!(sorted(&of_set), vec![1, 2, 3, 4, 5]);
}
