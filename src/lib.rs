//! A split-ordered hash map over a lazily grown segment tree, together with
//! a sorted set, a memoising cache and the job accounting of a thread pool.

pub mod cache;
pub mod growable_array;
pub mod list_set;
pub mod split_key;
pub mod split_ordered_list;
pub mod thread_pool;
