//! Nodes: identity, interfaces, per-node routing table, and the
//! store-and-forward decision logic.

use vstd::prelude::*;
use crate::geom::{Pos, within_radius, hits_node};
use crate::{EtherId, NetError, NodeId, Packet, Policy};

verus! {

/// An interface identifier, unique within its node.  By the topology-building
/// convention an interface joining node `node` to neighbour `peer` carries the
/// pair `(node, peer)`; the route computation writes next hops in the same
/// form, so the convention is load-bearing.
#[derive(Clone, Copy, PartialEq, Eq, Structural, Debug)]
pub struct NodeInterfaceId {
    pub node: NodeId,
    pub peer: NodeId,
}

/// A node's attachment point to a link.  The binding to a link is write-once:
/// an interface starts unbound and may transition once to bound.
#[derive(Clone, Copy, Debug)]
pub struct NodeInterface {
    pub owner_node: NodeId,
    pub id_in_owner: NodeInterfaceId,
    pub connected_ether: Option<EtherId>,
}

impl NodeInterface {
    /// A fresh, unbound interface.
    pub fn new(owner_node: NodeId, id_in_owner: NodeInterfaceId) -> (r: NodeInterface)
        ensures
            r.owner_node == owner_node,
            r.id_in_owner == id_in_owner,
            r.connected_ether is None,
    {
        NodeInterface { owner_node, id_in_owner, connected_ether: None }
    }

    /// Bind the interface to a link.  Rebinding is refused: the binding is
    /// write-once by design.
    pub fn connect(&mut self, ether: EtherId) -> (r: Result<(), NetError>)
        ensures
            final(self).owner_node == old(self).owner_node,
            final(self).id_in_owner == old(self).id_in_owner,
            r is Ok <==> old(self).connected_ether is None,
            r is Ok ==> final(self).connected_ether == Some(ether),
            r is Err ==> r == Err::<(), NetError>(NetError::AlreadyBound)
                && final(self).connected_ether == old(self).connected_ether,
    {
        match self.connected_ether {
            Some(_) => Err(NetError::AlreadyBound),
            None => {
                self.connected_ether = Some(ether);
                Ok(())
            }
        }
    }

    /// The owning node and the identifier within it.
    pub fn get_to_owner(&self) -> (r: (NodeId, NodeInterfaceId))
        ensures
            r == (self.owner_node, self.id_in_owner),
    {
        (self.owner_node, self.id_in_owner)
    }

    /// The link this interface is bound to, if any.
    pub fn get_connected_ether(&self) -> (r: Option<EtherId>)
        ensures
            r == self.connected_ether,
    {
        self.connected_ether
    }
}

/// The first route entry for destination `d`, if any.
pub open spec fn route_lookup(s: Seq<(NodeId, NodeInterfaceId)>, d: NodeId) -> Option<NodeInterfaceId>
    decreases s.len(),
{
    if s.len() == 0 {
        None
    } else if s[0].0 == d {
        Some(s[0].1)
    } else {
        route_lookup(s.drop_first(), d)
    }
}

/// The first interface with identifier `id`, if any.
pub open spec fn iface_lookup(s: Seq<NodeInterface>, id: NodeInterfaceId) -> Option<NodeInterface>
    decreases s.len(),
{
    if s.len() == 0 {
        None
    } else if s[0].id_in_owner == id {
        Some(s[0])
    } else {
        iface_lookup(s.drop_first(), id)
    }
}

/// A route entry is found exactly when some position holds its key.
pub proof fn lemma_route_lookup_present(s: Seq<(NodeId, NodeInterfaceId)>, d: NodeId)
    ensures
        (route_lookup(s, d) is Some) <==> (exists|j: int|
            0 <= j < s.len() && (#[trigger] s[j]).0 == d),
    decreases s.len(),
{
    if s.len() > 0 {
        lemma_route_lookup_present(s.drop_first(), d);
        if s[0].0 == d {
            assert(s[0].0 == d);
        } else {
            if route_lookup(s.drop_first(), d) is Some {
                let j = choose|j: int| 0 <= j < s.drop_first().len()
                    && (#[trigger] s.drop_first()[j]).0 == d;
                assert(s[j + 1].0 == d);
            }
            if exists|j: int| 0 <= j < s.len() && (#[trigger] s[j]).0 == d {
                let j = choose|j: int| 0 <= j < s.len() && (#[trigger] s[j]).0 == d;
                assert(s.drop_first()[j - 1].0 == d);
            }
        }
    }
}

/// Replacing the first entry that holds key `s[i].0` rewrites that key's
/// route and no other.
pub proof fn lemma_route_update(s: Seq<(NodeId, NodeInterfaceId)>, i: int, v: NodeInterfaceId)
    requires
        0 <= i < s.len(),
        forall|j: int| 0 <= j < i ==> (#[trigger] s[j]).0 != s[i].0,
    ensures
        route_lookup(s.update(i, (s[i].0, v)), s[i].0) == Some(v),
        forall|d2: NodeId| d2 != s[i].0
            ==> route_lookup(s.update(i, (s[i].0, v)), d2) == route_lookup(s, d2),
    decreases i,
{
    let t = s.update(i, (s[i].0, v));
    if i == 0 {
        assert(t[0] == (s[0].0, v));
        assert(t.drop_first() =~= s.drop_first());
        assert forall|d2: NodeId| d2 != s[i].0
            implies route_lookup(t, d2) == route_lookup(s, d2) by {
            assert(route_lookup(t, d2) == route_lookup(t.drop_first(), d2));
            assert(route_lookup(s, d2) == route_lookup(s.drop_first(), d2));
        }
    } else {
        assert(t[0] == s[0]);
        assert(t.drop_first() =~= s.drop_first().update(i - 1, (s[i].0, v)));
        assert(s.drop_first()[i - 1] == s[i]);
        assert(forall|j: int| 0 <= j < i - 1
            ==> (#[trigger] s.drop_first()[j]).0 != s.drop_first()[i - 1].0);
        lemma_route_update(s.drop_first(), i - 1, v);
        assert(s[0].0 != s[i].0);
        assert(route_lookup(t, s[i].0) == route_lookup(t.drop_first(), s[i].0));
        assert forall|d2: NodeId| d2 != s[i].0
            implies route_lookup(t, d2) == route_lookup(s, d2) by {
            if s[0].0 == d2 {
            } else {
                assert(route_lookup(t, d2) == route_lookup(t.drop_first(), d2));
                assert(route_lookup(s, d2) == route_lookup(s.drop_first(), d2));
            }
        }
    }
}

/// Appending an entry for an absent key adds that key's route and changes no
/// other.
pub proof fn lemma_route_push(s: Seq<(NodeId, NodeInterfaceId)>, d: NodeId, v: NodeInterfaceId)
    requires
        route_lookup(s, d) is None,
    ensures
        route_lookup(s.push((d, v)), d) == Some(v),
        forall|d2: NodeId| d2 != d
            ==> route_lookup(s.push((d, v)), d2) == route_lookup(s, d2),
    decreases s.len(),
{
    let t = s.push((d, v));
    if s.len() == 0 {
        assert(t[0] == (d, v));
        assert(t.drop_first() =~= Seq::<(NodeId, NodeInterfaceId)>::empty());
        assert forall|d2: NodeId| d2 != d
            implies route_lookup(t, d2) == route_lookup(s, d2) by {
            assert(route_lookup(t, d2) == route_lookup(t.drop_first(), d2));
        }
    } else {
        assert(t[0] == s[0]);
        assert(t.drop_first() =~= s.drop_first().push((d, v)));
        assert(s[0].0 != d);
        lemma_route_push(s.drop_first(), d, v);
        assert(route_lookup(t, d) == route_lookup(t.drop_first(), d));
        assert forall|d2: NodeId| d2 != d
            implies route_lookup(t, d2) == route_lookup(s, d2) by {
            if s[0].0 == d2 {
            } else {
                assert(route_lookup(t, d2) == route_lookup(t.drop_first(), d2));
                assert(route_lookup(s, d2) == route_lookup(s.drop_first(), d2));
            }
        }
    }
}

/// What an interface lookup finds: a member of the sequence carrying the
/// looked-up identifier, present exactly when some position holds it.
pub proof fn lemma_iface_lookup_props(s: Seq<NodeInterface>, id: NodeInterfaceId)
    ensures
        (iface_lookup(s, id) is Some) <==> (exists|j: int|
            0 <= j < s.len() && (#[trigger] s[j]).id_in_owner == id),
        iface_lookup(s, id) is Some ==> iface_lookup(s, id).unwrap().id_in_owner == id
            && s.contains(iface_lookup(s, id).unwrap()),
    decreases s.len(),
{
    if s.len() > 0 {
        lemma_iface_lookup_props(s.drop_first(), id);
        if s[0].id_in_owner == id {
            assert(s[0].id_in_owner == id);
        } else {
            if iface_lookup(s.drop_first(), id) is Some {
                let x = iface_lookup(s.drop_first(), id).unwrap();
                let j = choose|j: int| 0 <= j < s.drop_first().len()
                    && s.drop_first()[j] == x;
                assert(s[j + 1] == x);
                let k = choose|k: int| 0 <= k < s.drop_first().len()
                    && (#[trigger] s.drop_first()[k]).id_in_owner == id;
                assert(s[k + 1].id_in_owner == id);
            }
            if exists|j: int| 0 <= j < s.len() && (#[trigger] s[j]).id_in_owner == id {
                let j = choose|j: int| 0 <= j < s.len() && (#[trigger] s[j]).id_in_owner == id;
                assert(s.drop_first()[j - 1].id_in_owner == id);
            }
        }
    }
}

/// Replacing the first interface that carries `s[i].id_in_owner` with another
/// interface under the same identifier rewrites that lookup and no other.
pub proof fn lemma_iface_update(s: Seq<NodeInterface>, i: int, v: NodeInterface)
    requires
        0 <= i < s.len(),
        forall|j: int| 0 <= j < i ==> (#[trigger] s[j]).id_in_owner != s[i].id_in_owner,
        v.id_in_owner == s[i].id_in_owner,
    ensures
        iface_lookup(s.update(i, v), s[i].id_in_owner) == Some(v),
        forall|id2: NodeInterfaceId| id2 != s[i].id_in_owner
            ==> iface_lookup(s.update(i, v), id2) == iface_lookup(s, id2),
    decreases i,
{
    let t = s.update(i, v);
    if i == 0 {
        assert(t[0] == v);
        assert(t.drop_first() =~= s.drop_first());
        assert forall|id2: NodeInterfaceId| id2 != s[i].id_in_owner
            implies iface_lookup(t, id2) == iface_lookup(s, id2) by {
            assert(iface_lookup(t, id2) == iface_lookup(t.drop_first(), id2));
            assert(iface_lookup(s, id2) == iface_lookup(s.drop_first(), id2));
        }
    } else {
        assert(t[0] == s[0]);
        assert(t.drop_first() =~= s.drop_first().update(i - 1, v));
        assert(s.drop_first()[i - 1] == s[i]);
        assert(forall|j: int| 0 <= j < i - 1
            ==> (#[trigger] s.drop_first()[j]).id_in_owner != s.drop_first()[i - 1].id_in_owner);
        lemma_iface_update(s.drop_first(), i - 1, v);
        assert(s[0].id_in_owner != s[i].id_in_owner);
        assert(iface_lookup(t, s[i].id_in_owner) == iface_lookup(t.drop_first(), s[i].id_in_owner));
        assert forall|id2: NodeInterfaceId| id2 != s[i].id_in_owner
            implies iface_lookup(t, id2) == iface_lookup(s, id2) by {
            if s[0].id_in_owner == id2 {
            } else {
                assert(iface_lookup(t, id2) == iface_lookup(t.drop_first(), id2));
                assert(iface_lookup(s, id2) == iface_lookup(s.drop_first(), id2));
            }
        }
    }
}

/// Appending an interface with an absent identifier adds that lookup and
/// changes no other.
pub proof fn lemma_iface_push(s: Seq<NodeInterface>, v: NodeInterface)
    requires
        iface_lookup(s, v.id_in_owner) is None,
    ensures
        iface_lookup(s.push(v), v.id_in_owner) == Some(v),
        forall|id2: NodeInterfaceId| id2 != v.id_in_owner
            ==> iface_lookup(s.push(v), id2) == iface_lookup(s, id2),
    decreases s.len(),
{
    let t = s.push(v);
    if s.len() == 0 {
        assert(t[0] == v);
        assert(t.drop_first() =~= Seq::<NodeInterface>::empty());
        assert forall|id2: NodeInterfaceId| id2 != v.id_in_owner
            implies iface_lookup(t, id2) == iface_lookup(s, id2) by {
            assert(iface_lookup(t, id2) == iface_lookup(t.drop_first(), id2));
        }
    } else {
        assert(t[0] == s[0]);
        assert(t.drop_first() =~= s.drop_first().push(v));
        assert(s[0].id_in_owner != v.id_in_owner);
        lemma_iface_push(s.drop_first(), v);
        assert(iface_lookup(t, v.id_in_owner) == iface_lookup(t.drop_first(), v.id_in_owner));
        assert forall|id2: NodeInterfaceId| id2 != v.id_in_owner
            implies iface_lookup(t, id2) == iface_lookup(s, id2) by {
            if s[0].id_in_owner == id2 {
            } else {
                assert(iface_lookup(t, id2) == iface_lookup(t.drop_first(), id2));
                assert(iface_lookup(s, id2) == iface_lookup(s.drop_first(), id2));
            }
        }
    }
}

/// The closed set of node variants.  Both behave identically in forwarding
/// and routing; the kind matters only to an external rendering collaborator.
#[derive(Clone, Copy, PartialEq, Eq, Structural, Debug)]
pub enum NodeKind {
    Router,
    Endpoint,
}

/// A network element: identity, position, named interfaces, and a routing
/// table mapping destinations to outgoing interfaces.
#[derive(Debug)]
pub struct Node {
    pub id: NodeId,
    pub kind: NodeKind,
    pub position: Pos,
    pub interfaces: Vec<NodeInterface>,
    pub known_routes: Vec<(NodeId, NodeInterfaceId)>,
}

impl Node {
    /// Every interface's owner matches the node holding it, and interface
    /// identifiers are unique within the node.
    pub open spec fn wf(self) -> bool {
        &&& forall|j: int| 0 <= j < self.interfaces@.len()
            ==> (#[trigger] self.interfaces@[j]).owner_node == self.id
        &&& forall|j1: int, j2: int| 0 <= j1 < j2 < self.interfaces@.len()
            ==> (#[trigger] self.interfaces@[j1]).id_in_owner
                != (#[trigger] self.interfaces@[j2]).id_in_owner
    }

    /// The routing table's entry for `d`.
    pub open spec fn route_of(self, d: NodeId) -> Option<NodeInterfaceId> {
        route_lookup(self.known_routes@, d)
    }

    /// Some interface of the node is bound to a link.
    pub open spec fn has_bound_interface(self) -> bool {
        exists|j: int| 0 <= j < self.interfaces@.len()
            && (#[trigger] self.interfaces@[j]).connected_ether is Some
    }

    /// Whether a hop toward `d` can be chosen: either some bound interface
    /// exists for the random fallback, or computed routing is on and a route
    /// for `d` is known.
    pub open spec fn can_choose(self, policy: Policy, d: NodeId) -> bool {
        self.has_bound_interface()
            || (policy.computed_routing && self.route_of(d) is Some)
    }

    /// How an outgoing interface toward `d` is chosen: the known route when
    /// computed routing is on and one is known, otherwise any of the node's
    /// currently bound interfaces (picked at random).
    pub open spec fn chosen_ok(self, policy: Policy, d: NodeId, r: NodeInterfaceId) -> bool {
        if policy.computed_routing && self.route_of(d) is Some {
            r == self.route_of(d).unwrap()
        } else {
            exists|j: int| 0 <= j < self.interfaces@.len()
                && (#[trigger] self.interfaces@[j]).id_in_owner == r
                && self.interfaces@[j].connected_ether is Some
        }
    }

    /// A fresh node with no interfaces and no known routes.
    pub fn new(id: NodeId, kind: NodeKind, position: Pos) -> (r: Node)
        ensures
            r.id == id,
            r.kind == kind,
            r.position == position,
            r.interfaces@.len() == 0,
            r.known_routes@.len() == 0,
            r.wf(),
    {
        Node { id, kind, position, interfaces: Vec::new(), known_routes: Vec::new() }
    }

    /// The node's identity.
    pub fn get_id(&self) -> (r: NodeId)
        ensures
            r == self.id,
    {
        self.id
    }

    /// The node's position.
    pub fn get_position(&self) -> (r: Pos)
        ensures
            r == self.position,
    {
        self.position
    }

    /// Whether a point falls within the node's visual radius.
    pub fn corresponds_to_position(&self, position: Pos) -> (r: bool)
        ensures
            r == within_radius(self.position, position),
    {
        hits_node(self.position, position)
    }

    /// The admission guard: a node accepts a packet from a link only if it
    /// was not the packet's last sender, so a broadcast never hands a node
    /// back its own emission.
    pub fn will_receive(&self, _interface: NodeInterfaceId, packet: &Packet) -> (r: bool)
        ensures
            r == (packet.current_sender != self.id),
    {
        packet.current_sender != self.id
    }

    /// The index of the first interface with identifier `id`, if any.
    fn find_interface(&self, id: NodeInterfaceId) -> (r: Option<usize>)
        ensures
            match r {
                Some(i) => i < self.interfaces@.len()
                    && self.interfaces@[i as int].id_in_owner == id
                    && (forall|j: int| 0 <= j < i
                        ==> (#[trigger] self.interfaces@[j]).id_in_owner != id)
                    && iface_lookup(self.interfaces@, id) == Some(self.interfaces@[i as int]),
                None => iface_lookup(self.interfaces@, id) is None
                    && (forall|j: int| 0 <= j < self.interfaces@.len()
                        ==> (#[trigger] self.interfaces@[j]).id_in_owner != id),
            },
    {
        let n = self.interfaces.len();
        let mut i: usize = 0;
        while i < n
            invariant
                i <= n,
                n == self.interfaces@.len(),
                forall|j: int| 0 <= j < i
                    ==> (#[trigger] self.interfaces@[j]).id_in_owner != id,
            decreases n - i,
        {
            if self.interfaces[i].id_in_owner == id {
                proof {
                    lemma_iface_first_match(self.interfaces@, id, i as int);
                }
                return Some(i);
            }
            i += 1;
        }
        proof {
            lemma_iface_lookup_props(self.interfaces@, id);
        }
        None
    }

    /// The interface with identifier `interface`, if the node has one.
    pub fn get_interface(&self, interface: NodeInterfaceId) -> (r: Option<NodeInterface>)
        ensures
            r == iface_lookup(self.interfaces@, interface),
    {
        match self.find_interface(interface) {
            Some(i) => Some(self.interfaces[i]),
            None => None,
        }
    }

    /// Create a named interface.  Fails exactly when the identifier is
    /// already taken on this node.
    pub fn create_interface(&mut self, id: NodeInterfaceId) -> (r: Result<NodeInterfaceId, NetError>)
        ensures
            final(self).id == old(self).id,
            final(self).kind == old(self).kind,
            final(self).position == old(self).position,
            final(self).known_routes@ == old(self).known_routes@,
            r is Err <==> iface_lookup(old(self).interfaces@, id) is Some,
            r is Err ==> r == Err::<NodeInterfaceId, NetError>(NetError::DuplicateInterface)
                && final(self).interfaces@ == old(self).interfaces@,
            r is Ok ==> r == Ok::<NodeInterfaceId, NetError>(id)
                && final(self).interfaces@ == old(self).interfaces@.push(
                    NodeInterface { owner_node: old(self).id, id_in_owner: id, connected_ether: None })
                && iface_lookup(final(self).interfaces@, id)
                    == Some(NodeInterface { owner_node: old(self).id, id_in_owner: id, connected_ether: None })
                && (forall|id2: NodeInterfaceId| id2 != id
                    ==> iface_lookup(final(self).interfaces@, id2)
                        == iface_lookup(old(self).interfaces@, id2)),
            old(self).wf() ==> final(self).wf(),
    {
        match self.find_interface(id) {
            Some(_) => Err(NetError::DuplicateInterface),
            None => {
                let ni = NodeInterface::new(self.id, id);
                proof {
                    lemma_iface_push(self.interfaces@, ni);
                }
                self.interfaces.push(ni);
                Ok(id)
            }
        }
    }

    /// Bind a named interface to a link.  Fails when the interface is absent
    /// or already bound; the binding is write-once.
    pub fn connect_interface(&mut self, interface: NodeInterfaceId, ether: EtherId) -> (r: Result<(), NetError>)
        ensures
            final(self).id == old(self).id,
            final(self).kind == old(self).kind,
            final(self).position == old(self).position,
            final(self).known_routes@ == old(self).known_routes@,
            final(self).interfaces@.len() == old(self).interfaces@.len(),
            forall|j: int| 0 <= j < old(self).interfaces@.len()
                ==> (#[trigger] final(self).interfaces@[j]).id_in_owner
                        == old(self).interfaces@[j].id_in_owner
                    && final(self).interfaces@[j].owner_node == old(self).interfaces@[j].owner_node,
            r is Ok <==> iface_lookup(old(self).interfaces@, interface) is Some
                && iface_lookup(old(self).interfaces@, interface).unwrap().connected_ether is None,
            r is Ok ==> iface_lookup(final(self).interfaces@, interface)
                    == Some(NodeInterface {
                        connected_ether: Some(ether),
                        ..iface_lookup(old(self).interfaces@, interface).unwrap()
                    })
                && (forall|id2: NodeInterfaceId| id2 != interface
                    ==> iface_lookup(final(self).interfaces@, id2)
                        == iface_lookup(old(self).interfaces@, id2)),
            r is Err ==> final(self).interfaces@ == old(self).interfaces@
                && (iface_lookup(old(self).interfaces@, interface) is None
                        ==> r == Err::<(), NetError>(NetError::UnknownInterface))
                && (iface_lookup(old(self).interfaces@, interface) is Some
                        ==> r == Err::<(), NetError>(NetError::AlreadyBound)),
            old(self).wf() ==> final(self).wf(),
    {
        match self.find_interface(interface) {
            None => Err(NetError::UnknownInterface),
            Some(i) => {
                let mut ni = self.interfaces[i];
                match ni.connect(ether) {
                    Err(e) => Err(e),
                    Ok(()) => {
                        proof {
                            lemma_iface_update(self.interfaces@, i as int, ni);
                        }
                        self.interfaces[i] = ni;
                        Ok(())
                    }
                }
            }
        }
    }

    /// The routing table's entry for `destination`, if any.
    fn lookup_route(&self, destination: NodeId) -> (r: Option<NodeInterfaceId>)
        ensures
            r == route_lookup(self.known_routes@, destination),
    {
        let n = self.known_routes.len();
        let mut i: usize = 0;
        proof {
            assert(self.known_routes@.subrange(0, n as int) =~= self.known_routes@);
        }
        while i < n
            invariant
                i <= n,
                n == self.known_routes@.len(),
                route_lookup(self.known_routes@, destination)
                    == route_lookup(self.known_routes@.subrange(i as int, n as int), destination),
            decreases n - i,
        {
            let (d, ifc) = self.known_routes[i];
            proof {
                assert(self.known_routes@.subrange(i as int, n as int)[0]
                    == self.known_routes@[i as int]);
            }
            if d == destination {
                return Some(ifc);
            }
            proof {
                assert(self.known_routes@.subrange(i as int, n as int).drop_first()
                    =~= self.known_routes@.subrange(i as int + 1, n as int));
            }
            i += 1;
        }
        None
    }

    /// Record that packets for `destination` leave through the interface
    /// toward `send_to`, overwriting any earlier route for `destination`.
    pub fn set_known_route(&mut self, destination: NodeId, send_to: NodeId)
        ensures
            final(self).id == old(self).id,
            final(self).kind == old(self).kind,
            final(self).position == old(self).position,
            final(self).interfaces@ == old(self).interfaces@,
            route_lookup(final(self).known_routes@, destination)
                == Some(NodeInterfaceId { node: old(self).id, peer: send_to }),
            forall|d2: NodeId| d2 != destination
                ==> route_lookup(final(self).known_routes@, d2)
                    == route_lookup(old(self).known_routes@, d2),
            old(self).wf() ==> final(self).wf(),
    {
        let ifc = NodeInterfaceId { node: self.id, peer: send_to };
        let n = self.known_routes.len();
        let mut i: usize = 0;
        while i < n
            invariant
                i <= n,
                n == self.known_routes@.len(),
                *self == *old(self),
                ifc == (NodeInterfaceId { node: old(self).id, peer: send_to }),
                forall|j: int| 0 <= j < i
                    ==> (#[trigger] self.known_routes@[j]).0 != destination,
            decreases n - i,
        {
            if self.known_routes[i].0 == destination {
                proof {
                    lemma_route_update(self.known_routes@, i as int, ifc);
                }
                self.known_routes[i] = (destination, ifc);
                return;
            }
            i += 1;
        }
        proof {
            lemma_route_lookup_present(self.known_routes@, destination);
            lemma_route_push(self.known_routes@, destination, ifc);
        }
        self.known_routes.push((destination, ifc));
    }

    /// The outgoing interface for a packet toward `destination`: the known
    /// route when computed routing is on and one is known, otherwise one of
    /// the node's interfaces drawn at random.
    pub fn get_known_route_interface(&self, destination: NodeId, policy: Policy) -> (r: NodeInterfaceId)
        requires
            self.can_choose(policy, destination),
        ensures
            self.chosen_ok(policy, destination, r),
    {
        let known = if policy.computed_routing {
            self.lookup_route(destination)
        } else {
            None
        };
        match known {
            Some(ifc) => ifc,
            None => {
                let mut bound: Vec<usize> = Vec::new();
                let m = self.interfaces.len();
                let mut i: usize = 0;
                while i < m
                    invariant
                        i <= m,
                        m == self.interfaces@.len(),
                        forall|q: int| 0 <= q < bound@.len()
                            ==> ((#[trigger] bound@[q]) as int) < self.interfaces@.len()
                                && self.interfaces@[bound@[q] as int].connected_ether
                                    is Some,
                        forall|j: int| 0 <= j < i
                            && (#[trigger] self.interfaces@[j]).connected_ether is Some
                            ==> bound@.len() > 0,
                    decreases m - i,
                {
                    if self.interfaces[i].get_connected_ether().is_some() {
                        bound.push(i);
                    }
                    i += 1;
                }
                proof {
                    let j = choose|j: int| 0 <= j < self.interfaces@.len()
                        && (#[trigger] self.interfaces@[j]).connected_ether is Some;
                    assert(bound@.len() > 0);
                }
                let pick = crate::rng::random_index(bound.len());
                self.interfaces[bound[pick]].id_in_owner
            }
        }
    }

    /// The per-packet forwarding decision.  With drop-everything on, every
    /// packet is discarded.  A transit packet is forwarded unchanged but for
    /// `current_sender`.  A packet at its destination is consumed, or — with
    /// echo-on-arrival on — answered by a fresh packet, under a new uuid, back
    /// toward the original source.
    pub fn receive(&self, _interface: NodeInterfaceId, packet: Packet, policy: Policy) -> (out: Vec<(NodeInterfaceId, Packet)>)
        requires
            !policy.drop_everything && packet.destination != self.id
                ==> self.can_choose(policy, packet.destination),
            !policy.drop_everything && packet.destination == self.id && policy.echo_on_arrival
                ==> self.can_choose(policy, packet.source),
        ensures
            policy.drop_everything ==> out@.len() == 0,
            !policy.drop_everything && packet.destination != self.id
                ==> out@.len() == 1
                    && out@[0].1.uuid == packet.uuid
                    && out@[0].1.source == packet.source
                    && out@[0].1.destination == packet.destination
                    && out@[0].1.current_sender == self.id
                    && self.chosen_ok(policy, packet.destination, out@[0].0),
            !policy.drop_everything && packet.destination == self.id && !policy.echo_on_arrival
                ==> out@.len() == 0,
            !policy.drop_everything && packet.destination == self.id && policy.echo_on_arrival
                ==> out@.len() == 1
                    && out@[0].1.uuid != packet.uuid
                    && out@[0].1.source == packet.destination
                    && out@[0].1.destination == packet.source
                    && out@[0].1.current_sender == self.id
                    && self.chosen_ok(policy, packet.source, out@[0].0),
    {
        let mut out: Vec<(NodeInterfaceId, Packet)> = Vec::new();
        if policy.drop_everything {
            return out;
        }
        if packet.destination != self.id {
            let ifc = self.get_known_route_interface(packet.destination, policy);
            out.push((ifc, Packet {
                uuid: packet.uuid,
                source: packet.source,
                current_sender: self.id,
                destination: packet.destination,
            }));
        } else if policy.echo_on_arrival {
            let ifc = self.get_known_route_interface(packet.source, policy);
            let u = crate::rng::fresh_uuid(packet.uuid);
            out.push((ifc, Packet {
                uuid: u,
                source: packet.destination,
                current_sender: self.id,
                destination: packet.source,
            }));
        }
        out
    }
}

/// A prefix of non-matches followed by a match pins the lookup's result.
proof fn lemma_iface_first_match(s: Seq<NodeInterface>, id: NodeInterfaceId, i: int)
    requires
        0 <= i < s.len(),
        s[i].id_in_owner == id,
        forall|j: int| 0 <= j < i ==> (#[trigger] s[j]).id_in_owner != id,
    ensures
        iface_lookup(s, id) == Some(s[i]),
    decreases i,
{
    if i == 0 {
    } else {
        assert(s.drop_first()[i - 1] == s[i]);
        lemma_iface_first_match(s.drop_first(), id, i - 1);
    }
}

/// Any node that has at least one bound interface can always choose some
/// outgoing interface, whatever the policy and the destination: with computed
/// routing off — or no route known — the random fallback never faces an empty
/// choice set.
pub proof fn lemma_random_fallback_reachable(node: Node, policy: Policy, destination: NodeId)
    requires
        node.has_bound_interface(),
    ensures
        node.can_choose(policy, destination),
{
}

} // verus!
