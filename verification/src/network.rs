use vstd::prelude::*;

verus! {

/// Brief info about one container connected to a network.
pub struct Container {
    pub name: String,
}

/// Code representation of the values the container runtime yields when a
/// network is inspected.
pub struct Network {
    /// The name of the network
    pub name: String,
    /// All the containers that are currently connected to the network,
    /// if any, keyed by container identifier
    pub containers: Option<Vec<(String, Container)>>,
}

} // verus!
