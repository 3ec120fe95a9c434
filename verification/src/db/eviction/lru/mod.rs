//! The least-recently-used eviction policy.

pub mod lru_linklist;
pub mod lru_struct;
