//! A split-ordered hash map: a dynamically growing map over 63-bit integer
//! keys, built from a single list sorted by bit-reversed keys together with a
//! lazily materialized directory of bucket sentinels.

mod cache;
mod growable_array;
mod list;
mod list_set;
mod so_key;
mod split_ordered_list;

pub use cache::Cache;
pub use list_set::{Iter, OrderedListSet};
pub use so_key::{
    ancestor_bucket, bucket_key_spec, data_key_spec, log2floor, parent_bucket_spec, rev_bits,
    so_rev, valid_key,
};
pub use split_ordered_list::{SplitOrderedList, LOAD_FACTOR};
