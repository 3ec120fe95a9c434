//! Static configuration chosen at bootstrap.

use vstd::prelude::*;

verus! {

/// The knobs fixed when the process starts.
pub struct Config {
    pub eviction_type: EvictionType,
}

/// Which eviction policy the shards run. Only the LRU policy ships;
/// the LFU slot is reserved.
pub enum EvictionType {
    LRU,
    LFU,
}

} // verus!
