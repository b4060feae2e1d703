//! Insertion sort, quicksort and merge sort, verified to return a sorted
//! permutation of their input, with an oracle that checks sortedness.
pub mod order;
pub mod slices;
pub mod insertion;
pub mod quick;
pub mod merging;
pub mod random;

pub use order::is_sorted;
pub use insertion::insertion_sort;
pub use quick::{partition, quicksort};
pub use merging::{merge, merge_sort};
pub use random::generate_random_array;
