//! Small helpers: a greeting, random partitioning of collections into
//! groups, and a check that a collection holds enough of each required item.

pub mod greeting;
pub mod partition;
pub mod random_split;
pub mod sufficiency;

pub use greeting::greet_rust_helpers;
pub use partition::{chunk_vec, deal_vec};
pub use random_split::{
    split_rand_hashset_eq, split_rand_vec, split_rand_vec_eq, try_split_rand_hashset_eq,
    try_split_rand_vec, try_split_rand_vec_eq, SplitError,
};
pub use sufficiency::{check_sufficient_items, count_matching};
