//! Links: the two-ended cable medium and its endpoint descriptors.

use vstd::prelude::*;
use crate::geom::Pos;
use crate::node::{NodeInterface, NodeInterfaceId};
use crate::{EtherId, NodeId};

verus! {

/// A link's view of one endpoint: the owning node, the interface identifier
/// within it, and the binding recorded when the endpoint was captured.
#[derive(Clone, Copy, Debug)]
pub struct EtherInterface {
    pub owner_node: NodeId,
    pub id_in_owner: NodeInterfaceId,
    pub connected_ether: Option<EtherId>,
}

impl EtherInterface {
    /// Capture a node interface as a link endpoint.
    pub fn from_node_interface(interface: &NodeInterface) -> (r: EtherInterface)
        ensures
            r.owner_node == interface.owner_node,
            r.id_in_owner == interface.id_in_owner,
            r.connected_ether == interface.connected_ether,
    {
        let (owner_node, id_in_owner) = interface.get_to_owner();
        let connected_ether = interface.get_connected_ether();
        EtherInterface { owner_node, id_in_owner, connected_ether }
    }

    /// The owning node and the identifier within it.
    pub fn get_to_owner(&self) -> (r: (NodeId, NodeInterfaceId))
        ensures
            r == (self.owner_node, self.id_in_owner),
    {
        (self.owner_node, self.id_in_owner)
    }
}

/// A cable: a link with exactly two endpoints.  Until connected it has no
/// sides; connecting also caches the owners' positions for straight-line
/// geometry (a snapshot, not live-updated).
#[derive(Clone, Copy, Debug)]
pub struct Cable {
    pub id: EtherId,
    pub sides: Option<(EtherInterface, EtherInterface)>,
    pub cached_positions: Option<(Pos, Pos)>,
}

impl Cable {
    /// A fresh, unconnected cable.
    pub fn new(id: EtherId) -> (r: Cable)
        ensures
            r.id == id,
            r.sides is None,
            r.cached_positions is None,
    {
        Cable { id, sides: None, cached_positions: None }
    }

    /// The cable's identity.
    pub fn get_id(&self) -> (r: EtherId)
        ensures
            r == self.id,
    {
        self.id
    }

    /// Record the cable's two endpoints and the position snapshot of their
    /// owners.
    pub fn connect_internal(&mut self, side_a: EtherInterface, side_b: EtherInterface, pos_a: Pos, pos_b: Pos)
        ensures
            final(self).id == old(self).id,
            final(self).sides == Some((side_a, side_b)),
            final(self).cached_positions == Some((pos_a, pos_b)),
    {
        self.sides = Some((side_a, side_b));
        self.cached_positions = Some((pos_a, pos_b));
    }

    /// The cable's two endpoints, if connected.
    pub fn get_interfaces(&self) -> (r: Option<(EtherInterface, EtherInterface)>)
        ensures
            r == self.sides,
    {
        self.sides
    }

    /// The edges this cable contributes to the routing graph.
    pub open spec fn spec_distance_multipliers(self) -> Seq<(NodeId, NodeId, u64)> {
        match self.sides {
            None => Seq::empty(),
            Some((a, b)) => seq![
                (a.owner_node, b.owner_node, 1u64),
                (b.owner_node, a.owner_node, 1u64),
            ],
        }
    }

    /// The directed, weight-multiplied node pairs this cable contributes to
    /// the routing graph: one edge each way, at unit multiplier.
    pub fn get_distance_multipliers(&self) -> (r: Vec<(NodeId, NodeId, u64)>)
        ensures
            r@ == self.spec_distance_multipliers(),
    {
        let mut r: Vec<(NodeId, NodeId, u64)> = Vec::new();
        match self.sides {
            None => {}
            Some((a, b)) => {
                r.push((a.owner_node, b.owner_node, 1u64));
                r.push((b.owner_node, a.owner_node, 1u64));
            }
        }
        proof {
            assert(r@ =~= self.spec_distance_multipliers());
        }
        r
    }
}

} // verus!
