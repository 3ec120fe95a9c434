//! Per-connection state, threaded explicitly through the call graph.

use vstd::prelude::*;

verus! {

/// What a connection carries with it: the selected database and, when
/// known, the peer's address.
pub struct ConnectionState {
    pub selected_db: usize,
    pub client_address: Option<Vec<u8>>,
}

impl ConnectionState {
    /// The state a fresh connection starts in: database 0.
    pub fn new_default() -> (r: ConnectionState)
        ensures
            r.selected_db == 0,
            r.client_address is None,
    {
        ConnectionState { selected_db: 0, client_address: None }
    }
}

} // verus!
