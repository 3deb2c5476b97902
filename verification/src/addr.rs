//! Peer addresses.

use vstd::prelude::*;

verus! {

/// The transport endpoint of a peer: an IP address and a port, as plain
/// integers. Two peers with equal addresses are the same peer.
#[derive(Clone, Copy, Debug, PartialEq, Eq, Hash, Structural)]
#[allow(inconsistent_fields)]
pub enum PeerAddr {
    /// An IPv4 endpoint; `ip` holds the four octets, the first one highest.
    V4 { ip: u32, port: u16 },
    /// An IPv6 endpoint; `ip` holds the sixteen octets, the first one highest.
    V6 { ip: u128, port: u16, flowinfo: u32, scope_id: u32 },
}

} // verus!
