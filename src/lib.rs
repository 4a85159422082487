pub mod bucket;
pub mod local_sort;
pub mod merge;
pub mod order;
pub mod tree;

pub use bucket::stable_counting_pass;
pub use local_sort::{counting_sort, radix_sort, sort_chunk, SortStrategy};
pub use merge::merge;
pub use tree::{
    chunked_sort, local_sort_phase, merge_round, next_chunk_set, parallel_tree_based_merge,
    partition,
};
