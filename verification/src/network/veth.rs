use vstd::prelude::*;

verus! {

/// One end of the virtual link wiring a container into a network: the
/// container id, the network name, the allocated address with its
/// prefix length, and the name of the peer interface inside the
/// container once it is known.
#[derive(Debug)]
pub struct Endpoint {
    pub id: String,
    pub network_name: String,
    pub ip: ([u8; 4], u8),
    pub peer_name: Option<String>,
}

} // verus!
