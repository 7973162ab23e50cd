//! Verified data structures: a separate-chaining hash table that grows by
//! doubling, and a max-oriented binary heap.

pub mod hashtable;
pub mod key;
pub mod model;
pub mod priorityqueue;
pub mod text;
