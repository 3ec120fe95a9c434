//! An in-memory key-value store speaking a Redis-style wire protocol.
//!
//! The library holds the storage engine and its control plane: the frame
//! codec, command parsing, the sharded keyspace with memory accounting and
//! LRU eviction metadata, the append-only-log record builder and replayer,
//! and the script write-buffer. The surrounding process (sockets, file I/O,
//! background tasks) lives outside the library and hands it plain values.

pub mod aof_exchange;
pub mod bytes_util;
pub mod command_exchange;
pub mod command_execute;
pub mod config;
pub mod context;
pub mod core_aof;
pub mod core_exchange;
pub mod core_execute;
pub mod core_explain;
pub mod db;
pub mod error;
pub mod server;
pub mod types;

use vstd::prelude::*;

verus! {

/// Sum of two counters; the caller keeps the total inside `usize`.
pub fn add(left: usize, right: usize) -> (r: usize)
    requires
        left + right <= usize::MAX,
    ensures
        r == left + right,
{
    left + right
}

} // verus!
