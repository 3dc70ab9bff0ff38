//! A small packet-switched network simulator: nodes joined by point-to-point
//! cables, shortest-path routes computed from link geometry, and packets
//! relayed hop by hop under configurable forwarding policies.

pub mod ether;
pub mod geom;

pub mod network;
pub mod node;
pub mod routing;
pub mod rng;

use vstd::prelude::*;

verus! {

/// A stable handle to a node in the network's arena.
pub type NodeId = usize;

/// A stable handle to a link (ether) in the network's arena.
pub type EtherId = usize;

/// The errors a topology or simulation operation can report.  Configuration
/// errors surface while the topology is built or routes are computed; lookup
/// errors mark invariant violations and are surfaced loudly, never swallowed.
#[derive(Clone, Copy, PartialEq, Eq, Structural, Debug)]
pub enum NetError {
    /// An interface with the same identifier already exists on the node.
    DuplicateInterface,
    /// The interface is already bound to a link; binding is write-once.
    AlreadyBound,
    /// An interface or link was used before it was bound or connected.
    NotConnected,
    /// A node id does not name a node in the arena.
    UnknownNode,
    /// An interface id does not name an interface on the node.
    UnknownInterface,
    /// An ether id does not name a link in the arena.
    UnknownEther,
    /// Some ordered pair of nodes has no connecting path.
    Unreachable,
    /// A path weight exceeded the representable range.
    WeightOverflow,
    /// The route search produced a tree that failed its own audit.
    BadRoute,
}

/// The simulation-wide policy toggles, handed to the core as an explicit
/// snapshot rather than read from ambient state.
#[derive(Clone, Copy, PartialEq, Eq, Structural, Debug)]
pub struct Policy {
    /// Forward along computed shortest-path routes; when off, every hop is
    /// chosen at random.
    pub computed_routing: bool,
    /// When a packet reaches its destination, send a fresh packet back to the
    /// original source.
    pub echo_on_arrival: bool,
    /// Discard every received packet unconditionally.
    pub drop_everything: bool,
}

impl Policy {
    /// The default policy: computed routing on, echo off, drop off.
    pub fn standard() -> (p: Policy)
        ensures
            p.computed_routing,
            !p.echo_on_arrival,
            !p.drop_everything,
    {
        Policy { computed_routing: true, echo_on_arrival: false, drop_everything: false }
    }
}

/// A packet: routing metadata only.  A forwarding hop copies the packet with a
/// new `current_sender`; an echo swaps source and destination under a fresh
/// uuid.
#[derive(Clone, Copy, PartialEq, Eq, Structural, Debug)]
pub struct Packet {
    pub uuid: u128,
    pub source: NodeId,
    pub current_sender: NodeId,
    pub destination: NodeId,
}

} // verus!
