//! Plain-value models of the network-facing inputs: connection identities
//! and the raw per-tick utilization snapshot produced by traffic capture.

use vstd::prelude::*;

verus! {

/// One endpoint of a flow: an IPv4 address (as its 32-bit integer form)
/// together with a port.
#[derive(Clone, Copy, Debug, PartialEq, Eq, Hash, Structural)]
pub struct Socket {
    pub ip: u32,
    pub port: u16,
}

/// The stable identity of a flow: its local and remote socket pair.
/// Used as a map key across ticks.
#[derive(Clone, Copy, Debug, PartialEq, Eq, Hash, Structural)]
pub struct Connection {
    pub local_socket: Socket,
    pub remote_socket: Socket,
}

/// Raw traffic counters captured for one connection during one tick,
/// together with the interface the traffic traversed.
#[derive(Clone, Debug)]
pub struct ConnectionInfo {
    pub interface_name: String,
    pub total_bytes_downloaded: u128,
    pub total_bytes_uploaded: u128,
}

/// The raw utilization snapshot for one tick: a mapping from connection
/// identity to its captured counters, held as an association vector with
/// pairwise-distinct keys.
#[derive(Debug)]
pub struct Utilization {
    pub connections: Vec<(Connection, ConnectionInfo)>,
}

impl Utilization {
    /// The snapshot is a mapping: no connection occurs twice.
    pub open spec fn wf(self) -> bool {
        forall|i: int, j: int|
            0 <= i < j < self.connections@.len() ==> self.connections@[i].0 != self.connections@[j].0
    }

    pub fn new() -> (r: Utilization)
        ensures
            r.connections@.len() == 0,
            r.wf(),
    {
        Utilization { connections: Vec::new() }
    }
}

} // verus!
