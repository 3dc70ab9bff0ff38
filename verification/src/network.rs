//! The network: arenas of nodes and cables, packet injection, and the
//! discrete-tick transmission scheduler.

use vstd::prelude::*;
use crate::ether::{Cable, EtherInterface};
use crate::geom::{Pos, euclid, within_radius, distance_between};
use crate::node::{iface_lookup, Node, NodeInterfaceId, NodeKind};
use crate::{EtherId, NetError, NodeId, Packet, Policy};

verus! {

/// An in-flight packet crossing a link: endpoint positions, the integer
/// distance between them, the ticks travelled so far, the recipient endpoint,
/// and the carried packet.
#[derive(Clone, Copy, Debug)]
pub struct Transmission {
    pub from: Pos,
    pub to: Pos,
    pub distance: u64,
    pub travelled: u64,
    pub recipient: EtherInterface,
    pub packet: Packet,
}

/// An in-flight transmission has either just been created or has not yet
/// covered its distance; it is retired the moment it delivers.
pub open spec fn t_wf(t: Transmission) -> bool {
    t.travelled == 0 || t.travelled < t.distance
}

impl Transmission {
    /// A fresh transmission: zero ticks travelled, distance the truncated
    /// Euclidean distance between the endpoints.
    pub fn new(from: Pos, to: Pos, recipient: EtherInterface, packet: Packet) -> (t: Transmission)
        ensures
            t.from == from,
            t.to == to,
            t.recipient == recipient,
            t.packet == packet,
            t.travelled == 0,
            t.distance as int == euclid(from, to),
            t_wf(t),
    {
        let distance = distance_between((from, to));
        Transmission { from, to, distance, travelled: 0, recipient, packet }
    }

    /// Where the carried packet is drawn: the point on the straight line
    /// between the endpoints, advanced per axis in proportion to the distance
    /// covered.  For a rendering collaborator; the core draws nothing itself.
    pub fn progress_position(&self) -> (r: Pos)
        requires
            self.travelled <= self.distance,
        ensures
            r.x as int == lerp_toward(self.from.x as int, self.to.x as int, percent_covered(*self)),
            r.y as int == lerp_toward(self.from.y as int, self.to.y as int, percent_covered(*self)),
    {
        let c: u64 = if self.distance == 0 {
            100
        } else {
            let c128: u128 = (100u128 * self.travelled as u128) / (self.distance as u128);
            proof {
                vstd::arithmetic::div_mod::lemma_div_is_ordered(
                    100 * self.travelled as int,
                    100 * self.distance as int,
                    self.distance as int,
                );
                vstd::arithmetic::div_mod::lemma_div_multiples_vanish(
                    100,
                    self.distance as int,
                );
                assert(self.distance as int * 100 == 100 * self.distance as int);
            }
            c128 as u64
        };
        let x = lerp_axis(self.from.x, self.to.x, c);
        let y = lerp_axis(self.from.y, self.to.y, c);
        Pos { x, y }
    }
}

/// One axis of the straight-line interpolation, rounded toward the start.
fn lerp_axis(a: i32, b: i32, c: u64) -> (r: i32)
    requires
        c <= 100,
    ensures
        r as int == lerp_toward(a as int, b as int, c as int),
{
    if b >= a {
        let d: u64 = ((b as i64) - (a as i64)) as u64;
        proof {
            assert((d as int) * (c as int) <= (d as int) * 100) by (nonlinear_arith)
                requires c <= 100, 0 <= d;
            assert((d as int) * (c as int) >= 0) by (nonlinear_arith)
                requires 0 <= c, 0 <= d;
            vstd::arithmetic::div_mod::lemma_div_is_ordered(
                d as int * (c as int),
                d as int * 100,
                100,
            );
            vstd::arithmetic::div_mod::lemma_div_multiples_vanish(d as int, 100);
            assert(100 * (d as int) == (d as int) * 100);
            vstd::arithmetic::div_mod::lemma_div_pos_is_pos(d as int * (c as int), 100);
        }
        let step: u128 = (d as u128) * (c as u128) / 100;
        let r64: i64 = (a as i64) + (step as i64);
        r64 as i32
    } else {
        let d: u64 = ((a as i64) - (b as i64)) as u64;
        proof {
            assert((d as int) * (c as int) <= (d as int) * 100) by (nonlinear_arith)
                requires c <= 100, 0 <= d;
            assert((d as int) * (c as int) >= 0) by (nonlinear_arith)
                requires 0 <= c, 0 <= d;
            vstd::arithmetic::div_mod::lemma_div_is_ordered(
                d as int * (c as int),
                d as int * 100,
                100,
            );
            vstd::arithmetic::div_mod::lemma_div_multiples_vanish(d as int, 100);
            assert(100 * (d as int) == (d as int) * 100);
            vstd::arithmetic::div_mod::lemma_div_pos_is_pos(d as int * (c as int), 100);
        }
        let step: u128 = (d as u128) * (c as u128) / 100;
        let r64: i64 = (a as i64) - (step as i64);
        r64 as i32
    }
}

/// A coordinate on the straight line from `a` to `b`, advanced by `c`
/// hundredths of the way and rounded toward `a`.
pub open spec fn lerp_toward(a: int, b: int, c: int) -> int {
    if b >= a {
        a + (b - a) * c / 100
    } else {
        a - (a - b) * c / 100
    }
}

/// How far along its link a transmission stands, in hundredths; a
/// zero-distance transmission counts as arrived.
pub open spec fn percent_covered(t: Transmission) -> int {
    if t.distance == 0 {
        100
    } else {
        100 * (t.travelled as int) / (t.distance as int)
    }
}

/// A transmission after one tick of progress.
pub open spec fn advanced(t: Transmission) -> Transmission {
    Transmission { travelled: (t.travelled + 1) as u64, ..t }
}

/// Whether a transmission completes on this tick: one more step of progress
/// first reaches (or passes, for a zero-distance link) its distance.
pub open spec fn delivers(t: Transmission) -> bool {
    t.travelled + 1 >= t.distance
}

/// The transmissions still in flight after a tick: each advanced by one, the
/// completed ones retired.
pub open spec fn retained_after(s: Seq<Transmission>) -> Seq<Transmission>
    decreases s.len(),
{
    if s.len() == 0 {
        Seq::empty()
    } else if delivers(s.last()) {
        retained_after(s.drop_last())
    } else {
        retained_after(s.drop_last()).push(advanced(s.last()))
    }
}

/// The deliveries a tick produces: for each completed transmission, in order,
/// the recipient node, the recipient interface, and the carried packet.
pub open spec fn delivered_after(s: Seq<Transmission>) -> Seq<(NodeId, NodeInterfaceId, Packet)>
    decreases s.len(),
{
    if s.len() == 0 {
        Seq::empty()
    } else if delivers(s.last()) {
        delivered_after(s.drop_last()).push(
            (s.last().recipient.owner_node, s.last().recipient.id_in_owner, s.last().packet))
    } else {
        delivered_after(s.drop_last())
    }
}

/// Deliveries inherit their recipient node ids from the transmissions that
/// produced them, so a bound on the one is a bound on the other.
pub proof fn lemma_delivered_ids(s: Seq<Transmission>, n: int)
    requires
        forall|k: int| 0 <= k < s.len()
            ==> ((#[trigger] s[k]).recipient.owner_node as int) < n,
    ensures
        forall|q: int| 0 <= q < delivered_after(s).len()
            ==> ((#[trigger] delivered_after(s)[q]).0 as int) < n,
    decreases s.len(),
{
    if s.len() > 0 {
        assert(forall|k: int| 0 <= k < s.drop_last().len()
            ==> ((#[trigger] s.drop_last()[k]).recipient.owner_node as int) < n);
        lemma_delivered_ids(s.drop_last(), n);
        assert forall|q: int| 0 <= q < delivered_after(s).len()
            implies ((#[trigger] delivered_after(s)[q]).0 as int) < n by {
            if delivers(s.last()) {
                if q < delivered_after(s.drop_last()).len() {
                    assert(delivered_after(s)[q] == delivered_after(s.drop_last())[q]);
                } else {
                    assert(delivered_after(s)[q].0 == s.last().recipient.owner_node);
                    assert((s[s.len() - 1].recipient.owner_node as int) < n);
                }
            }
        }
    }
}

/// The network: stable-keyed arenas of nodes and links, the in-flight
/// transmissions, and the per-tick receive and emit queues.
pub struct Network {
    pub nodes: Vec<Node>,
    pub ethers: Vec<Cable>,
    pub transmissions: Vec<Transmission>,
    pub incoming: Vec<(NodeId, NodeInterfaceId, Packet)>,
    pub outgoing: Vec<(EtherId, Pos, Packet)>,
}

/// An entry of the emit queue was produced by some node: the packet's
/// `current_sender` names it and the recorded position is its own.
pub open spec fn emission_ok(net: Network, em: (EtherId, Pos, Packet)) -> bool {
    exists|i: int| 0 <= i < net.nodes@.len()
        && em.2.current_sender == (#[trigger] net.nodes@[i]).id
        && em.1 == net.nodes@[i].position
}

/// An entry of the emit queue names a connected link whose endpoints' owners
/// exist: the state in which the flush phase cannot fail on it.
pub open spec fn emission_wired(net: Network, em: (EtherId, Pos, Packet)) -> bool {
    &&& (em.0 as int) < net.ethers@.len()
    &&& net.ethers@[em.0 as int].sides is Some
    &&& (net.ethers@[em.0 as int].sides.unwrap().0.owner_node as int) < net.nodes@.len()
    &&& (net.ethers@[em.0 as int].sides.unwrap().1.owner_node as int) < net.nodes@.len()
    &&& net.ethers@[em.0 as int].sides.unwrap().0.owner_node
        != net.ethers@[em.0 as int].sides.unwrap().1.owner_node
}

/// Some transmission created past `base` carries `em`'s packet from `em`'s
/// position toward the endpoint `side`.
pub open spec fn tr_present(
    trs: Seq<Transmission>,
    base: int,
    side: EtherInterface,
    em: (EtherId, Pos, Packet),
) -> bool {
    exists|j: int| base <= j < trs.len() && (#[trigger] trs[j]).recipient == side
        && trs[j].packet == em.2 && trs[j].from == em.1
}

/// An emission was flushed in full: every endpoint of its link that passes
/// the admission guard — every endpoint but the sender's — got a
/// transmission.
pub open spec fn emission_flushed(
    net: Network,
    em: (EtherId, Pos, Packet),
    trs: Seq<Transmission>,
    base: int,
) -> bool {
    (em.0 as int) < net.ethers@.len() && net.ethers@[em.0 as int].sides is Some ==> ({
        let sd = net.ethers@[em.0 as int].sides.unwrap();
        &&& (sd.0.owner_node != em.2.current_sender ==> tr_present(trs, base, sd.0, em))
        &&& (sd.1.owner_node != em.2.current_sender ==> tr_present(trs, base, sd.1, em))
    })
}

/// An interface is bound to a link that exists, is connected, and whose
/// endpoint owners exist.
pub open spec fn iface_wired(net: Network, ni: crate::node::NodeInterface) -> bool {
    &&& ni.connected_ether is Some
    &&& (ni.connected_ether.unwrap() as int) < net.ethers@.len()
    &&& net.ethers@[ni.connected_ether.unwrap() as int].sides is Some
    &&& (net.ethers@[ni.connected_ether.unwrap() as int].sides.unwrap().0.owner_node as int)
        < net.nodes@.len()
    &&& (net.ethers@[ni.connected_ether.unwrap() as int].sides.unwrap().1.owner_node as int)
        < net.nodes@.len()
    &&& net.ethers@[ni.connected_ether.unwrap() as int].sides.unwrap().0.owner_node
        != net.ethers@[ni.connected_ether.unwrap() as int].sides.unwrap().1.owner_node
}

/// The forwarding logic hands back only interfaces it chose from the node's
/// own routing table or its own interface list.
pub open spec fn choice_from(node: Node, oi: NodeInterfaceId) -> bool {
    ||| exists|j: int| 0 <= j < node.interfaces@.len()
        && (#[trigger] node.interfaces@[j]).id_in_owner == oi
        && node.interfaces@[j].connected_ether is Some
    ||| exists|dd: NodeId| (#[trigger] crate::node::route_lookup(node.known_routes@, dd))
        == Some(oi)
}

/// Some emission appended past `base` carries a queued packet's identity
/// onward from its node: same uuid, source and destination, the node as the
/// new sender.
pub open spec fn forwarded_onto(
    outgoing: Seq<(EtherId, Pos, Packet)>,
    base: int,
    nid: NodeId,
    pk: Packet,
) -> bool {
    exists|j: int| base <= j < outgoing.len()
        && (#[trigger] outgoing[j]).2.uuid == pk.uuid
        && outgoing[j].2.source == pk.source
        && outgoing[j].2.destination == pk.destination
        && outgoing[j].2.current_sender == nid
}

/// Some emission appended past `base` answers a packet that reached its
/// destination: a fresh uuid, the endpoints swapped, the node as sender.
pub open spec fn echoed_onto(
    outgoing: Seq<(EtherId, Pos, Packet)>,
    base: int,
    nid: NodeId,
    pk: Packet,
) -> bool {
    exists|j: int| base <= j < outgoing.len()
        && (#[trigger] outgoing[j]).2.uuid != pk.uuid
        && outgoing[j].2.source == pk.destination
        && outgoing[j].2.destination == pk.source
        && outgoing[j].2.current_sender == nid
}

/// A single packet can be serviced at its node: whenever the forwarding
/// decision owes a hop — transit, or echo on arrival — the node can choose
/// one.
pub open spec fn pk_serviceable(node: Node, policy: Policy, pk: Packet) -> bool {
    &&& (!policy.drop_everything && pk.destination != node.id
        ==> node.can_choose(policy, pk.destination))
    &&& (!policy.drop_everything && pk.destination == node.id && policy.echo_on_arrival
        ==> node.can_choose(policy, pk.source))
}

/// Every delivery names the transmission it came from.
pub proof fn lemma_delivered_from(s: Seq<Transmission>)
    ensures
        forall|q: int| 0 <= q < delivered_after(s).len()
            ==> exists|k: int| 0 <= k < s.len()
                && (#[trigger] delivered_after(s)[q]) == ((#[trigger] s[k]).recipient.owner_node,
                    s[k].recipient.id_in_owner, s[k].packet),
    decreases s.len(),
{
    if s.len() > 0 {
        lemma_delivered_from(s.drop_last());
        assert forall|q: int| 0 <= q < delivered_after(s).len()
            implies exists|k: int| 0 <= k < s.len()
                && (#[trigger] delivered_after(s)[q]) == ((#[trigger] s[k]).recipient.owner_node,
                    s[k].recipient.id_in_owner, s[k].packet) by {
            if delivers(s.last()) && q == delivered_after(s).len() - 1 {
                assert(delivered_after(s)[q] == (s[s.len() - 1].recipient.owner_node,
                    s[s.len() - 1].recipient.id_in_owner, s[s.len() - 1].packet));
            } else {
                assert(delivered_after(s)[q] == delivered_after(s.drop_last())[q]);
                let k = choose|k: int| 0 <= k < s.drop_last().len()
                    && (#[trigger] delivered_after(s.drop_last())[q])
                        == ((#[trigger] s.drop_last()[k]).recipient.owner_node,
                            s.drop_last()[k].recipient.id_in_owner, s.drop_last()[k].packet);
                assert(s[k] == s.drop_last()[k]);
            }
        }
    }
}

/// A node can carry out any forwarding decision: it has interfaces, all of
/// them wired, and every route entry names an interface it actually has.
pub open spec fn node_wired(net: Network, node: Node) -> bool {
    &&& node.interfaces@.len() > 0
    &&& forall|j: int| 0 <= j < node.interfaces@.len()
        ==> iface_wired(net, #[trigger] node.interfaces@[j])
    &&& forall|d: NodeId| (#[trigger] crate::node::route_lookup(node.known_routes@, d)) is Some
        ==> iface_lookup(node.interfaces@,
            crate::node::route_lookup(node.known_routes@, d).unwrap()) is Some
}

impl Network {
    /// Arena keys are the arena indices, every node is well formed, and every
    /// in-flight transmission is within its distance.
    pub open spec fn wf(self) -> bool {
        &&& forall|i: int| 0 <= i < self.nodes@.len()
            ==> (#[trigger] self.nodes@[i]).id == i && self.nodes@[i].wf()
        &&& forall|e: int| 0 <= e < self.ethers@.len()
            ==> (#[trigger] self.ethers@[e]).id == e
                && (self.ethers@[e].sides matches Some(sd)
                    ==> (sd.0.owner_node as int) < self.nodes@.len()
                        && (sd.1.owner_node as int) < self.nodes@.len())
        &&& forall|k: int| 0 <= k < self.transmissions@.len()
            ==> t_wf(#[trigger] self.transmissions@[k])
                && (self.transmissions@[k].recipient.owner_node as int) < self.nodes@.len()
    }

    /// Every node has at least one bound interface, so any forwarding
    /// decision can pick an outgoing hop (unless drop-everything makes one
    /// unnecessary).
    pub open spec fn all_nodes_wired(self) -> bool {
        forall|i: int| 0 <= i < self.nodes@.len()
            ==> (#[trigger] self.nodes@[i]).has_bound_interface()
    }

    /// Every queued packet can be serviced at its node.
    pub open spec fn queue_serviceable(self, policy: Policy) -> bool {
        forall|q: int| 0 <= q < self.incoming@.len() ==> ({
            let e = #[trigger] self.incoming@[q];
            (e.0 as int) < self.nodes@.len()
                ==> pk_serviceable(self.nodes@[e.0 as int], policy, e.2)
        })
    }

    /// Every in-flight packet can be serviced at its recipient.
    pub open spec fn flight_serviceable(self, policy: Policy) -> bool {
        forall|k: int| 0 <= k < self.transmissions@.len() ==> ({
            let t = #[trigger] self.transmissions@[k];
            (t.recipient.owner_node as int) < self.nodes@.len()
                ==> pk_serviceable(self.nodes@[t.recipient.owner_node as int], policy, t.packet)
        })
    }

    /// Every node can carry out any forwarding decision: a tick on such a
    /// network is guaranteed to succeed.
    pub open spec fn fully_wired(self) -> bool {
        forall|i: int| 0 <= i < self.nodes@.len()
            ==> node_wired(self, #[trigger] self.nodes@[i])
    }

    /// An empty network.
    pub fn new() -> (net: Network)
        ensures
            net.nodes@.len() == 0,
            net.ethers@.len() == 0,
            net.transmissions@.len() == 0,
            net.incoming@.len() == 0,
            net.outgoing@.len() == 0,
            net.wf(),
    {
        Network {
            nodes: Vec::new(),
            ethers: Vec::new(),
            transmissions: Vec::new(),
            incoming: Vec::new(),
            outgoing: Vec::new(),
        }
    }

    /// Add a node of the given kind; its id is the next arena slot.
    fn add_node(&mut self, kind: NodeKind, position: Pos) -> (r: NodeId)
        requires
            old(self).wf(),
        ensures
            final(self).wf(),
            r == old(self).nodes@.len(),
            final(self).nodes@.len() == old(self).nodes@.len() + 1,
            forall|i: int| 0 <= i < old(self).nodes@.len()
                ==> final(self).nodes@[i] == old(self).nodes@[i],
            final(self).nodes@[r as int].id == r,
            final(self).nodes@[r as int].kind == kind,
            final(self).nodes@[r as int].position == position,
            final(self).nodes@[r as int].interfaces@.len() == 0,
            final(self).nodes@[r as int].known_routes@.len() == 0,
            final(self).ethers@ == old(self).ethers@,
            final(self).transmissions@ == old(self).transmissions@,
            final(self).incoming@ == old(self).incoming@,
            final(self).outgoing@ == old(self).outgoing@,
    {
        let id = self.nodes.len();
        let node = Node::new(id, kind, position);
        self.nodes.push(node);
        id
    }

    /// Add a router node.
    pub fn add_router_node(&mut self, position: Pos) -> (r: NodeId)
        requires
            old(self).wf(),
        ensures
            final(self).wf(),
            r == old(self).nodes@.len(),
            final(self).nodes@.len() == old(self).nodes@.len() + 1,
            forall|i: int| 0 <= i < old(self).nodes@.len()
                ==> final(self).nodes@[i] == old(self).nodes@[i],
            final(self).nodes@[r as int].id == r,
            final(self).nodes@[r as int].kind == NodeKind::Router,
            final(self).nodes@[r as int].position == position,
            final(self).nodes@[r as int].interfaces@.len() == 0,
            final(self).nodes@[r as int].known_routes@.len() == 0,
            final(self).ethers@ == old(self).ethers@,
            final(self).transmissions@ == old(self).transmissions@,
            final(self).incoming@ == old(self).incoming@,
            final(self).outgoing@ == old(self).outgoing@,
    {
        self.add_node(NodeKind::Router, position)
    }

    /// Add an endpoint node.  Endpoints forward and route exactly as routers
    /// do; the kind matters only to a rendering collaborator.
    pub fn add_endpoint_node(&mut self, position: Pos) -> (r: NodeId)
        requires
            old(self).wf(),
        ensures
            final(self).wf(),
            r == old(self).nodes@.len(),
            final(self).nodes@.len() == old(self).nodes@.len() + 1,
            forall|i: int| 0 <= i < old(self).nodes@.len()
                ==> final(self).nodes@[i] == old(self).nodes@[i],
            final(self).nodes@[r as int].id == r,
            final(self).nodes@[r as int].kind == NodeKind::Endpoint,
            final(self).nodes@[r as int].position == position,
            final(self).nodes@[r as int].interfaces@.len() == 0,
            final(self).nodes@[r as int].known_routes@.len() == 0,
            final(self).ethers@ == old(self).ethers@,
            final(self).transmissions@ == old(self).transmissions@,
            final(self).incoming@ == old(self).incoming@,
            final(self).outgoing@ == old(self).outgoing@,
    {
        self.add_node(NodeKind::Endpoint, position)
    }

    /// Create a named interface on a node.  Fails when the node id is unknown
    /// or the interface identifier is already taken on that node.
    pub fn add_router_interface(&mut self, node: NodeId, interface: NodeInterfaceId) -> (r: Result<
        NodeInterfaceId,
        NetError,
    >)
        requires
            old(self).wf(),
        ensures
            final(self).wf(),
            final(self).ethers@ == old(self).ethers@,
            final(self).transmissions@ == old(self).transmissions@,
            final(self).incoming@ == old(self).incoming@,
            final(self).outgoing@ == old(self).outgoing@,
            final(self).nodes@.len() == old(self).nodes@.len(),
            node >= old(self).nodes@.len() ==> r == Err::<NodeInterfaceId, NetError>(
                NetError::UnknownNode,
            ) && final(self).nodes@ == old(self).nodes@,
            node < old(self).nodes@.len() ==> {
                &&& (r is Ok <==> iface_lookup(old(self).nodes@[node as int].interfaces@, interface)
                    is None)
                &&& (r is Err && iface_lookup(old(self).nodes@[node as int].interfaces@, interface)
                    is Some ==> r == Err::<NodeInterfaceId, NetError>(NetError::DuplicateInterface)
                    && (forall|i: int| 0 <= i < old(self).nodes@.len() && i != node
                        ==> final(self).nodes@[i] == old(self).nodes@[i])
                    && final(self).nodes@[node as int].interfaces@
                        == old(self).nodes@[node as int].interfaces@
                    && final(self).nodes@[node as int].known_routes@
                        == old(self).nodes@[node as int].known_routes@)
                &&& (r is Ok ==> r == Ok::<NodeInterfaceId, NetError>(interface)
                    && final(self).nodes@[node as int].interfaces@
                        == old(self).nodes@[node as int].interfaces@.push(
                        crate::node::NodeInterface {
                            owner_node: node,
                            id_in_owner: interface,
                            connected_ether: None,
                        })
                    && (forall|i: int| 0 <= i < old(self).nodes@.len() && i != node
                        ==> final(self).nodes@[i] == old(self).nodes@[i])
                    && final(self).nodes@[node as int].id == old(self).nodes@[node as int].id
                    && final(self).nodes@[node as int].position
                        == old(self).nodes@[node as int].position
                    && final(self).nodes@[node as int].known_routes@
                        == old(self).nodes@[node as int].known_routes@)
            },
    {
        if node >= self.nodes.len() {
            return Err(NetError::UnknownNode);
        }
        let r = self.nodes[node].create_interface(interface);
        r
    }

    /// Add an unconnected cable; its id is the next arena slot.
    pub fn add_cable(&mut self) -> (r: EtherId)
        requires
            old(self).wf(),
        ensures
            final(self).wf(),
            r == old(self).ethers@.len(),
            final(self).ethers@.len() == old(self).ethers@.len() + 1,
            forall|e: int| 0 <= e < old(self).ethers@.len()
                ==> final(self).ethers@[e] == old(self).ethers@[e],
            final(self).ethers@[r as int].id == r,
            final(self).ethers@[r as int].sides is None,
            final(self).nodes@ == old(self).nodes@,
            final(self).transmissions@ == old(self).transmissions@,
            final(self).incoming@ == old(self).incoming@,
            final(self).outgoing@ == old(self).outgoing@,
    {
        let id = self.ethers.len();
        let cable = Cable::new(id);
        self.ethers.push(cable);
        id
    }

    /// Create a cable and bind it to the two named interfaces, caching the
    /// owners' positions for the link geometry.  Fails when a node id is
    /// unknown, an interface is absent, or an interface is already bound —
    /// binding is write-once, and naming the same interface twice binds it
    /// once and then fails.
    pub fn connect_cable(&mut self, sides: ((NodeId, NodeInterfaceId), (NodeId, NodeInterfaceId)))
        -> (r: Result<(), NetError>)
        requires
            old(self).wf(),
        ensures
            final(self).wf(),
            final(self).transmissions@ == old(self).transmissions@,
            final(self).incoming@ == old(self).incoming@,
            final(self).outgoing@ == old(self).outgoing@,
            final(self).nodes@.len() == old(self).nodes@.len(),
            r is Ok <==> ({
                let ((n1, i1), (n2, i2)) = sides;
                &&& n1 < old(self).nodes@.len()
                &&& n2 < old(self).nodes@.len()
                &&& iface_lookup(old(self).nodes@[n1 as int].interfaces@, i1) is Some
                &&& iface_lookup(old(self).nodes@[n1 as int].interfaces@, i1).unwrap().connected_ether is None
                &&& iface_lookup(old(self).nodes@[n2 as int].interfaces@, i2) is Some
                &&& iface_lookup(old(self).nodes@[n2 as int].interfaces@, i2).unwrap().connected_ether is None
                &&& !(n1 == n2 && i1 == i2)
            }),
            r is Ok ==> ({
                let ((n1, i1), (n2, i2)) = sides;
                let eid = old(self).ethers@.len() as EtherId;
                &&& final(self).ethers@.len() == old(self).ethers@.len() + 1
                &&& (forall|e: int| 0 <= e < old(self).ethers@.len()
                    ==> final(self).ethers@[e] == old(self).ethers@[e])
                &&& final(self).ethers@[eid as int].id == eid
                &&& final(self).ethers@[eid as int].sides is Some
                &&& final(self).ethers@[eid as int].sides.unwrap().0.owner_node == n1
                &&& final(self).ethers@[eid as int].sides.unwrap().0.id_in_owner == i1
                &&& final(self).ethers@[eid as int].sides.unwrap().1.owner_node == n2
                &&& final(self).ethers@[eid as int].sides.unwrap().1.id_in_owner == i2
                &&& final(self).ethers@[eid as int].cached_positions == Some((
                    old(self).nodes@[n1 as int].position,
                    old(self).nodes@[n2 as int].position,
                ))
                &&& iface_lookup(final(self).nodes@[n1 as int].interfaces@, i1).unwrap().connected_ether
                    == Some(eid)
                &&& iface_lookup(final(self).nodes@[n2 as int].interfaces@, i2).unwrap().connected_ether
                    == Some(eid)
                &&& (forall|i: int| 0 <= i < old(self).nodes@.len() && i != n1 && i != n2
                    ==> final(self).nodes@[i] == old(self).nodes@[i])
                &&& (forall|i: int| 0 <= i < old(self).nodes@.len()
                    ==> (#[trigger] final(self).nodes@[i]).position == old(self).nodes@[i].position
                        && final(self).nodes@[i].known_routes@ == old(self).nodes@[i].known_routes@
                        && final(self).nodes@[i].interfaces@.len()
                            == old(self).nodes@[i].interfaces@.len())
            }),
    {
        let ((n1, i1), (n2, i2)) = sides;
        if n1 >= self.nodes.len() || n2 >= self.nodes.len() {
            return Err(NetError::UnknownNode);
        }
        let eid = self.add_cable();
        let r1 = self.nodes[n1].connect_interface(i1, eid);
        match r1 {
            Err(e) => {
                return Err(e);
            }
            Ok(()) => {}
        }
        let pos1 = self.nodes[n1].get_position();
        let if1 = match self.nodes[n1].get_interface(i1) {
            Some(x) => x,
            None => {
                return Err(NetError::UnknownInterface);
            }
        };
        let e1 = EtherInterface::from_node_interface(&if1);
        let r2 = self.nodes[n2].connect_interface(i2, eid);
        match r2 {
            Err(e) => {
                return Err(e);
            }
            Ok(()) => {}
        }
        let pos2 = self.nodes[n2].get_position();
        let if2 = match self.nodes[n2].get_interface(i2) {
            Some(x) => x,
            None => {
                return Err(NetError::UnknownInterface);
            }
        };
        let e2 = EtherInterface::from_node_interface(&if2);
        proof {
            let s1 = old(self).nodes@[n1 as int].interfaces@;
            crate::node::lemma_iface_lookup_props(s1, i1);
            if iface_lookup(s1, i1) is Some {
                let v1 = iface_lookup(s1, i1).unwrap();
                let j1 = choose|j: int| 0 <= j < s1.len() && s1[j] == v1;
                assert(s1[j1].owner_node == n1);
            }
            let s2 = old(self).nodes@[n2 as int].interfaces@;
            crate::node::lemma_iface_lookup_props(s2, i2);
            if iface_lookup(s2, i2) is Some {
                let v2 = iface_lookup(s2, i2).unwrap();
                let j2 = choose|j: int| 0 <= j < s2.len() && s2[j] == v2;
                assert(s2[j2].owner_node == n2);
            }
        }
        self.ethers[eid].connect_internal(e1, e2, pos1, pos2);
        Ok(())
    }

    /// The first node whose visual radius contains the point, in arena order.
    pub fn locate_node(&self, position: Pos) -> (r: Option<NodeId>)
        ensures
            match r {
                Some(i) => i < self.nodes@.len()
                    && within_radius(self.nodes@[i as int].position, position)
                    && (forall|j: int| 0 <= j < i
                        ==> !within_radius((#[trigger] self.nodes@[j]).position, position)),
                None => forall|j: int| 0 <= j < self.nodes@.len()
                    ==> !within_radius((#[trigger] self.nodes@[j]).position, position),
            },
    {
        let n = self.nodes.len();
        let mut i: usize = 0;
        while i < n
            invariant
                i <= n,
                n == self.nodes@.len(),
                forall|j: int| 0 <= j < i
                    ==> !within_radius((#[trigger] self.nodes@[j]).position, position),
            decreases n - i,
        {
            if self.nodes[i].corresponds_to_position(position) {
                return Some(i);
            }
            i += 1;
        }
        None
    }

    /// Inject a packet directly into the source node's receive queue, as if
    /// it had just arrived with `current_sender` equal to the source, under a
    /// synthetic local tag.  By design this bypasses the admission guard: the
    /// packet originates in the node's own stack, not on the wire.
    pub fn send(&mut self, uuid: u128, source: NodeId, destination: NodeId)
        ensures
            final(self).nodes@ == old(self).nodes@,
            final(self).ethers@ == old(self).ethers@,
            final(self).transmissions@ == old(self).transmissions@,
            final(self).outgoing@ == old(self).outgoing@,
            final(self).incoming@ == old(self).incoming@.push((
                source,
                NodeInterfaceId { node: source, peer: source },
                Packet { uuid, source, current_sender: source, destination },
            )),
            old(self).wf() ==> final(self).wf(),
    {
        self.incoming.push((
            source,
            NodeInterfaceId { node: source, peer: source },
            Packet { uuid, source, current_sender: source, destination },
        ));
    }

    /// Whether every node has at least one bound interface: the condition
    /// under which any forwarding decision can pick an outgoing hop.
    pub fn nodes_all_wired(&self) -> (r: bool)
        ensures
            r == self.all_nodes_wired(),
    {
        let n = self.nodes.len();
        let mut i: usize = 0;
        while i < n
            invariant
                i <= n,
                n == self.nodes@.len(),
                forall|j: int| 0 <= j < i
                    ==> (#[trigger] self.nodes@[j]).has_bound_interface(),
            decreases n - i,
        {
            let m = self.nodes[i].interfaces.len();
            let mut k: usize = 0;
            let mut found = false;
            while k < m
                invariant
                    i < n,
                    n == self.nodes@.len(),
                    k <= m,
                    m == self.nodes@[i as int].interfaces@.len(),
                    found ==> self.nodes@[i as int].has_bound_interface(),
                    !found ==> forall|q: int| 0 <= q < k
                        ==> !((#[trigger] self.nodes@[i as int].interfaces@[q]).connected_ether
                            is Some),
                decreases m - k,
            {
                if self.nodes[i].interfaces[k].get_connected_ether().is_some() {
                    found = true;
                }
                k += 1;
            }
            if !found {
                proof {
                    if self.nodes@[i as int].has_bound_interface() {
                        let q = choose|q: int| 0 <= q < self.nodes@[i as int].interfaces@.len()
                            && (#[trigger] self.nodes@[i as int].interfaces@[q]).connected_ether
                                is Some;
                        assert(false);
                    }
                }
                return false;
            }
            i += 1;
        }
        true
    }

    /// The number of packets in flight.
    pub fn get_packets_count(&self) -> (r: usize)
        ensures
            r == self.transmissions@.len(),
    {
        self.transmissions.len()
    }

    /// Phase one of a tick: advance every in-flight transmission by one,
    /// retire the completed ones, and queue their packets for the recipient
    /// nodes.  Returns the deliveries in order.
    fn advance_and_deliver(&mut self) -> (dl: Vec<(NodeId, NodeInterfaceId, Packet)>)
        requires
            old(self).wf(),
        ensures
            final(self).wf(),
            final(self).nodes@ == old(self).nodes@,
            final(self).ethers@ == old(self).ethers@,
            final(self).outgoing@ == old(self).outgoing@,
            final(self).transmissions@ == retained_after(old(self).transmissions@),
            final(self).incoming@ == old(self).incoming@ + delivered_after(
                old(self).transmissions@),
            dl@ == delivered_after(old(self).transmissions@),
    {
        let n = self.transmissions.len();
        let mut kept: Vec<Transmission> = Vec::new();
        let mut dl: Vec<(NodeId, NodeInterfaceId, Packet)> = Vec::new();
        let mut i: usize = 0;
        proof {
            assert(old(self).transmissions@.take(0) =~= Seq::<Transmission>::empty());
        }
        while i < n
            invariant
                i <= n,
                n == self.transmissions@.len(),
                *self == *old(self),
                old(self).wf(),
                kept@ == retained_after(old(self).transmissions@.take(i as int)),
                dl@ == delivered_after(old(self).transmissions@.take(i as int)),
                forall|j: int| 0 <= j < kept@.len() ==> t_wf(#[trigger] kept@[j])
                    && (kept@[j].recipient.owner_node as int) < old(self).nodes@.len(),
            decreases n - i,
        {
            let t = self.transmissions[i];
            proof {
                assert(t_wf(t));
            }
            let t2 = Transmission { travelled: t.travelled + 1, ..t };
            proof {
                assert(old(self).transmissions@.take(i as int + 1).drop_last()
                    =~= old(self).transmissions@.take(i as int));
                assert(old(self).transmissions@.take(i as int + 1).last() == t);
            }
            if t2.travelled >= t2.distance {
                dl.push((t2.recipient.owner_node, t2.recipient.id_in_owner, t2.packet));
            } else {
                kept.push(t2);
            }
            i += 1;
        }
        proof {
            assert(old(self).transmissions@.take(n as int) =~= old(self).transmissions@);
        }
        self.transmissions = kept;
        let m = dl.len();
        let mut k: usize = 0;
        proof {
            assert(self.incoming@ + dl@.take(0) =~= self.incoming@);
        }
        while k < m
            invariant
                k <= m,
                m == dl@.len(),
                self.incoming@ == old(self).incoming@ + dl@.take(k as int),
                self.nodes@ == old(self).nodes@,
                self.ethers@ == old(self).ethers@,
                self.outgoing@ == old(self).outgoing@,
                self.transmissions@ == retained_after(old(self).transmissions@),
                dl@ == delivered_after(old(self).transmissions@),
                forall|j: int| 0 <= j < self.transmissions@.len()
                    ==> t_wf(#[trigger] self.transmissions@[j])
                        && (self.transmissions@[j].recipient.owner_node as int)
                            < self.nodes@.len(),
            decreases m - k,
        {
            let e = dl[k];
            self.incoming.push(e);
            proof {
                assert(dl@.take(k as int + 1) =~= dl@.take(k as int).push(e));
                assert(old(self).incoming@ + dl@.take(k as int + 1)
                    =~= (old(self).incoming@ + dl@.take(k as int)).push(e));
            }
            k += 1;
        }
        proof {
            assert(dl@.take(m as int) =~= dl@);
        }
        dl
    }

    /// Phase two of a tick: hand every queued packet to its node's forwarding
    /// logic and queue the resulting emissions, tagged with the resolved link
    /// and the emitting node's position.  With drop-everything on, nothing is
    /// emitted.
    fn process_incoming(&mut self, policy: Policy) -> (r: Result<(), NetError>)
        requires
            old(self).wf(),
            policy.drop_everything || old(self).all_nodes_wired()
                || old(self).queue_serviceable(policy),
        ensures
            final(self).wf(),
            final(self).nodes@ == old(self).nodes@,
            final(self).ethers@ == old(self).ethers@,
            final(self).transmissions@ == old(self).transmissions@,
            r is Ok ==> final(self).incoming@.len() == 0,
            old(self).outgoing@.is_prefix_of(final(self).outgoing@),
            forall|j: int| old(self).outgoing@.len() <= j < final(self).outgoing@.len()
                ==> emission_ok(*old(self), #[trigger] final(self).outgoing@[j]),
            policy.drop_everything ==> final(self).outgoing@ == old(self).outgoing@,
            old(self).fully_wired() && (forall|q: int| 0 <= q < old(self).incoming@.len()
                ==> ((#[trigger] old(self).incoming@[q]).0 as int) < old(self).nodes@.len())
                ==> r is Ok,
            old(self).fully_wired() ==> (forall|j: int|
                old(self).outgoing@.len() <= j < final(self).outgoing@.len()
                ==> emission_wired(*old(self), #[trigger] final(self).outgoing@[j])),
            r is Ok && !policy.drop_everything ==> (forall|q: int|
                0 <= q < old(self).incoming@.len() ==> ({
                    let e = #[trigger] old(self).incoming@[q];
                    &&& (e.2.destination != e.0 ==> forwarded_onto(
                        final(self).outgoing@, old(self).outgoing@.len() as int, e.0, e.2))
                    &&& (e.2.destination == e.0 && policy.echo_on_arrival ==> echoed_onto(
                        final(self).outgoing@, old(self).outgoing@.len() as int, e.0, e.2))
                })),
    {
        let count = self.incoming.len();
        let mut i: usize = 0;
        while i < count
            invariant
                i <= count,
                count == self.incoming@.len(),
                self.incoming@ == old(self).incoming@,
                self.nodes@ == old(self).nodes@,
                self.ethers@ == old(self).ethers@,
                self.transmissions@ == old(self).transmissions@,
                old(self).wf(),
                self.wf(),
                policy.drop_everything || old(self).all_nodes_wired()
                    || old(self).queue_serviceable(policy),
                old(self).outgoing@.is_prefix_of(self.outgoing@),
                forall|j: int| old(self).outgoing@.len() <= j < self.outgoing@.len()
                    ==> emission_ok(*old(self), #[trigger] self.outgoing@[j]),
                old(self).fully_wired() ==> (forall|j: int|
                    old(self).outgoing@.len() <= j < self.outgoing@.len()
                    ==> emission_wired(*old(self), #[trigger] self.outgoing@[j])),
                policy.drop_everything ==> self.outgoing@ == old(self).outgoing@,
                !policy.drop_everything ==> (forall|q: int| 0 <= q < i ==> ({
                    let e = #[trigger] old(self).incoming@[q];
                    &&& (e.2.destination != e.0 ==> forwarded_onto(
                        self.outgoing@, old(self).outgoing@.len() as int, e.0, e.2))
                    &&& (e.2.destination == e.0 && policy.echo_on_arrival ==> echoed_onto(
                        self.outgoing@, old(self).outgoing@.len() as int, e.0, e.2))
                })),
            decreases count - i,
        {
            let (nid, ifc, pk) = self.incoming[i];
            if nid >= self.nodes.len() {
                proof {
                    if forall|q: int| 0 <= q < old(self).incoming@.len()
                        ==> ((#[trigger] old(self).incoming@[q]).0 as int)
                            < old(self).nodes@.len() {
                        assert((old(self).incoming@[i as int].0 as int)
                            < old(self).nodes@.len());
                        assert(false);
                    }
                }
                return Err(NetError::UnknownNode);
            }
            proof {
                if !policy.drop_everything && !old(self).all_nodes_wired() {
                    assert(old(self).incoming@[i as int] == (nid, ifc, pk));
                    assert(pk_serviceable(self.nodes@[nid as int], policy, pk));
                }
            }
            let outs = self.nodes[nid].receive(ifc, pk, policy);
            proof {
                assert(self.nodes@[nid as int].id == nid);
                assert(forall|q: int| 0 <= q < outs@.len()
                    ==> (#[trigger] outs@[q]).1.current_sender == nid);
                assert(policy.drop_everything ==> outs@.len() == 0);
                assert forall|q: int| 0 <= q < outs@.len()
                    implies choice_from(self.nodes@[nid as int], (#[trigger] outs@[q]).0) by {
                    let node = self.nodes@[nid as int];
                    if !policy.drop_everything && pk.destination != nid {
                        assert(node.chosen_ok(policy, pk.destination, outs@[0].0));
                        if policy.computed_routing && node.route_of(pk.destination) is Some {
                            assert(crate::node::route_lookup(node.known_routes@, pk.destination)
                                == Some(outs@[0].0));
                        }
                    } else if !policy.drop_everything && pk.destination == nid
                        && policy.echo_on_arrival {
                        assert(node.chosen_ok(policy, pk.source, outs@[0].0));
                        if policy.computed_routing && node.route_of(pk.source) is Some {
                            assert(crate::node::route_lookup(node.known_routes@, pk.source)
                                == Some(outs@[0].0));
                        }
                    }
                }
            }
            let m = outs.len();
            let mut k: usize = 0;
            while k < m
                invariant
                    k <= m,
                    m == outs@.len(),
                    nid < self.nodes@.len(),
                    forall|q: int| 0 <= q < outs@.len()
                        ==> (#[trigger] outs@[q]).1.current_sender == nid,
                    forall|q: int| 0 <= q < outs@.len()
                        ==> choice_from(self.nodes@[nid as int], (#[trigger] outs@[q]).0),
                    self.incoming@ == old(self).incoming@,
                    self.nodes@ == old(self).nodes@,
                    self.ethers@ == old(self).ethers@,
                    self.transmissions@ == old(self).transmissions@,
                    old(self).wf(),
                    self.wf(),
                    old(self).outgoing@.is_prefix_of(self.outgoing@),
                    forall|j: int| old(self).outgoing@.len() <= j < self.outgoing@.len()
                        ==> emission_ok(*old(self), #[trigger] self.outgoing@[j]),
                    old(self).fully_wired() ==> (forall|j: int|
                        old(self).outgoing@.len() <= j < self.outgoing@.len()
                        ==> emission_wired(*old(self), #[trigger] self.outgoing@[j])),
                    policy.drop_everything ==> self.outgoing@ == old(self).outgoing@,
                    policy.drop_everything ==> m == 0,
                    forall|q2: int| 0 <= q2 < k ==> exists|j: int|
                        old(self).outgoing@.len() <= j < self.outgoing@.len()
                        && ((#[trigger] self.outgoing@[j]).2 == (#[trigger] outs@[q2]).1),
                    !policy.drop_everything ==> (forall|q: int| 0 <= q < i ==> ({
                        let e = #[trigger] old(self).incoming@[q];
                        &&& (e.2.destination != e.0 ==> forwarded_onto(
                            self.outgoing@, old(self).outgoing@.len() as int, e.0, e.2))
                        &&& (e.2.destination == e.0 && policy.echo_on_arrival
                            ==> echoed_onto(
                                self.outgoing@, old(self).outgoing@.len() as int, e.0, e.2))
                    })),
                decreases m - k,
            {
                let (oi, op) = outs[k];
                proof {
                    if old(self).fully_wired() {
                        let node = self.nodes@[nid as int];
                        assert(node_wired(*old(self), node));
                        crate::node::lemma_iface_lookup_props(node.interfaces@, oi);
                        if exists|dd: NodeId|
                            (#[trigger] crate::node::route_lookup(node.known_routes@, dd))
                                == Some(oi) {
                            let dd = choose|dd: NodeId|
                                (#[trigger] crate::node::route_lookup(node.known_routes@, dd))
                                    == Some(oi);
                            assert(crate::node::route_lookup(node.known_routes@, dd) is Some);
                        }
                        assert(iface_lookup(node.interfaces@, oi) is Some);
                        let v = iface_lookup(node.interfaces@, oi).unwrap();
                        let j = choose|j: int| 0 <= j < node.interfaces@.len()
                            && node.interfaces@[j] == v;
                        assert(iface_wired(*old(self), node.interfaces@[j]));
                    }
                }
                let found = self.nodes[nid].get_interface(oi);
                match found {
                    None => {
                        proof {
                            if old(self).fully_wired() {
                                assert(false);
                            }
                        }
                        return Err(NetError::UnknownInterface);
                    }
                    Some(ni) => {
                        match ni.get_connected_ether() {
                            None => {
                                proof {
                                    if old(self).fully_wired() {
                                        assert(false);
                                    }
                                }
                                return Err(NetError::NotConnected);
                            }
                            Some(eid) => {
                                let pos = self.nodes[nid].get_position();
                                let ghost pre_out = self.outgoing@;
                                self.outgoing.push((eid, pos, op));
                                proof {
                                    assert(emission_ok(
                                        *old(self),
                                        (eid, pos, op),
                                    )) by {
                                        assert(old(self).nodes@[nid as int].id == nid);
                                    }
                                    if old(self).fully_wired() {
                                        assert(emission_wired(*old(self), (eid, pos, op)));
                                    }
                                    assert forall|q2: int| 0 <= q2 < k + 1
                                        implies exists|j: int|
                                        old(self).outgoing@.len() <= j < self.outgoing@.len()
                                        && ((#[trigger] self.outgoing@[j]).2
                                            == (#[trigger] outs@[q2]).1) by {
                                        if q2 == k as int {
                                            assert(self.outgoing@[self.outgoing@.len() - 1].2
                                                == op);
                                        } else {
                                            let j = choose|j: int|
                                                old(self).outgoing@.len() <= j < pre_out.len()
                                                && ((#[trigger] pre_out[j]).2
                                                    == (#[trigger] outs@[q2]).1);
                                            assert(self.outgoing@[j] == pre_out[j]);
                                        }
                                    }
                                    if !policy.drop_everything {
                                        assert forall|q: int| 0 <= q < i implies ({
                                            let e = #[trigger] old(self).incoming@[q];
                                            &&& (e.2.destination != e.0 ==> forwarded_onto(
                                                self.outgoing@,
                                                old(self).outgoing@.len() as int, e.0, e.2))
                                            &&& (e.2.destination == e.0
                                                && policy.echo_on_arrival ==> echoed_onto(
                                                self.outgoing@,
                                                old(self).outgoing@.len() as int, e.0, e.2))
                                        }) by {
                                            let e = old(self).incoming@[q];
                                            if e.2.destination != e.0 {
                                                let j = choose|j: int|
                                                    old(self).outgoing@.len() <= j
                                                        < pre_out.len()
                                                    && (#[trigger] pre_out[j]).2.uuid
                                                        == e.2.uuid
                                                    && pre_out[j].2.source == e.2.source
                                                    && pre_out[j].2.destination
                                                        == e.2.destination
                                                    && pre_out[j].2.current_sender == e.0;
                                                assert(self.outgoing@[j] == pre_out[j]);
                                            }
                                            if e.2.destination == e.0
                                                && policy.echo_on_arrival {
                                                let j = choose|j: int|
                                                    old(self).outgoing@.len() <= j
                                                        < pre_out.len()
                                                    && (#[trigger] pre_out[j]).2.uuid
                                                        != e.2.uuid
                                                    && pre_out[j].2.source
                                                        == e.2.destination
                                                    && pre_out[j].2.destination
                                                        == e.2.source
                                                    && pre_out[j].2.current_sender == e.0;
                                                assert(self.outgoing@[j] == pre_out[j]);
                                            }
                                        }
                                    }
                                }
                            }
                        }
                    }
                }
                k += 1;
            }
            proof {
                if !policy.drop_everything {
                    assert forall|q: int| 0 <= q < i + 1 implies ({
                        let e = #[trigger] old(self).incoming@[q];
                        &&& (e.2.destination != e.0 ==> forwarded_onto(
                            self.outgoing@, old(self).outgoing@.len() as int, e.0, e.2))
                        &&& (e.2.destination == e.0 && policy.echo_on_arrival
                            ==> echoed_onto(
                                self.outgoing@, old(self).outgoing@.len() as int, e.0, e.2))
                    }) by {
                        if q == i {
                            let e = old(self).incoming@[q];
                            if e.2.destination != e.0 {
                                assert(outs@.len() == 1);
                                let j = choose|j: int|
                                    old(self).outgoing@.len() <= j < self.outgoing@.len()
                                    && (#[trigger] self.outgoing@[j]).2 == outs@[0].1;
                                assert(self.outgoing@[j].2.uuid == e.2.uuid
                                    && self.outgoing@[j].2.source == e.2.source
                                    && self.outgoing@[j].2.destination == e.2.destination
                                    && self.outgoing@[j].2.current_sender == e.0);
                            } else if policy.echo_on_arrival {
                                assert(outs@.len() == 1);
                                let j = choose|j: int|
                                    old(self).outgoing@.len() <= j < self.outgoing@.len()
                                    && (#[trigger] self.outgoing@[j]).2 == outs@[0].1;
                                assert(self.outgoing@[j].2.uuid != e.2.uuid
                                    && self.outgoing@[j].2.source == e.2.destination
                                    && self.outgoing@[j].2.destination == e.2.source
                                    && self.outgoing@[j].2.current_sender == e.0);
                            }
                        }
                    }
                }
            }
            i += 1;
        }
        self.incoming.clear();
        Ok(())
    }

    /// Admit one link endpoint for an emission: if the admission guard lets
    /// the endpoint's owner receive the packet, a fresh transmission is
    /// created from the emitter's position to the owner's.
    fn admit_side(&mut self, side: EtherInterface, from: Pos, pk: Packet) -> (r: Result<
        (),
        NetError,
    >)
        requires
            old(self).wf(),
        ensures
            final(self).wf(),
            final(self).nodes@ == old(self).nodes@,
            final(self).ethers@ == old(self).ethers@,
            final(self).incoming@ == old(self).incoming@,
            final(self).outgoing@ == old(self).outgoing@,
            old(self).transmissions@.is_prefix_of(final(self).transmissions@),
            final(self).transmissions@.len() <= old(self).transmissions@.len() + 1,
            forall|j: int| old(self).transmissions@.len() <= j < final(self).transmissions@.len()
                ==> ({
                    let t = #[trigger] final(self).transmissions@[j];
                    &&& t.travelled == 0
                    &&& t.recipient == side
                    &&& t.recipient.owner_node != t.packet.current_sender
                    &&& t.packet == pk
                    &&& t.from == from
                    &&& t.distance as int == euclid(t.from, t.to)
                }),
            r is Ok && side.owner_node != pk.current_sender
                ==> final(self).transmissions@.len() == old(self).transmissions@.len() + 1,
            r is Ok && side.owner_node == pk.current_sender
                ==> final(self).transmissions@ == old(self).transmissions@,
            r is Err <==> side.owner_node >= old(self).nodes@.len(),
            r is Err ==> r == Err::<(), NetError>(NetError::UnknownNode)
                && final(self).transmissions@ == old(self).transmissions@,
    {
        let (owner, owner_iface) = side.get_to_owner();
        if owner >= self.nodes.len() {
            return Err(NetError::UnknownNode);
        }
        if self.nodes[owner].will_receive(owner_iface, &pk) {
            let to = self.nodes[owner].get_position();
            let t = Transmission::new(from, to, side, pk);
            proof {
                assert(self.nodes@[owner as int].id == owner);
                assert(old(self).transmissions@.push(t).drop_last()
                    =~= old(self).transmissions@);
            }
            self.transmissions.push(t);
        }
        Ok(())
    }

    /// Phase three of a tick: resolve each queued emission's link and, for
    /// every endpoint of that link that passes the admission guard, start a
    /// transmission toward it.  The emitter itself never passes the guard, so
    /// no node receives its own emission.
    fn flush_outgoing(&mut self) -> (r: Result<(), NetError>)
        requires
            old(self).wf(),
        ensures
            final(self).wf(),
            final(self).nodes@ == old(self).nodes@,
            final(self).ethers@ == old(self).ethers@,
            final(self).incoming@ == old(self).incoming@,
            r is Ok ==> final(self).outgoing@.len() == 0,
            old(self).transmissions@.is_prefix_of(final(self).transmissions@),
            forall|j: int| old(self).transmissions@.len() <= j < final(self).transmissions@.len()
                ==> ({
                    let t = #[trigger] final(self).transmissions@[j];
                    &&& t.travelled == 0
                    &&& t.recipient.owner_node != t.packet.current_sender
                    &&& t.distance as int == euclid(t.from, t.to)
                    &&& exists|q: int| 0 <= q < old(self).outgoing@.len()
                        && t.packet == (#[trigger] old(self).outgoing@[q]).2
                        && t.from == old(self).outgoing@[q].1
                }),
            old(self).outgoing@.len() == 0 ==> final(self).transmissions@
                == old(self).transmissions@,
            (forall|q: int| 0 <= q < old(self).outgoing@.len()
                ==> emission_wired(*old(self), #[trigger] old(self).outgoing@[q]))
                ==> r is Ok,
            r is Ok ==> forall|q: int| 0 <= q < old(self).outgoing@.len()
                ==> emission_flushed(
                    *old(self),
                    #[trigger] old(self).outgoing@[q],
                    final(self).transmissions@,
                    old(self).transmissions@.len() as int,
                ),
    {
        let count = self.outgoing.len();
        let mut i: usize = 0;
        while i < count
            invariant
                i <= count,
                count == self.outgoing@.len(),
                self.outgoing@ == old(self).outgoing@,
                self.nodes@ == old(self).nodes@,
                self.ethers@ == old(self).ethers@,
                self.incoming@ == old(self).incoming@,
                old(self).wf(),
                self.wf(),
                old(self).transmissions@.is_prefix_of(self.transmissions@),
                count == 0 ==> self.transmissions@ == old(self).transmissions@,
                forall|q: int| 0 <= q < i ==> emission_flushed(
                    *old(self),
                    #[trigger] old(self).outgoing@[q],
                    self.transmissions@,
                    old(self).transmissions@.len() as int,
                ),
                forall|j: int| old(self).transmissions@.len() <= j < self.transmissions@.len()
                    ==> ({
                        let t = #[trigger] self.transmissions@[j];
                        &&& t.travelled == 0
                        &&& t.recipient.owner_node != t.packet.current_sender
                        &&& t.distance as int == euclid(t.from, t.to)
                        &&& exists|q: int| 0 <= q < old(self).outgoing@.len()
                            && t.packet == (#[trigger] old(self).outgoing@[q]).2
                            && t.from == old(self).outgoing@[q].1
                    }),
            decreases count - i,
        {
            let (eid, from, pk) = self.outgoing[i];
            proof {
                if forall|q: int| 0 <= q < old(self).outgoing@.len()
                    ==> emission_wired(*old(self), #[trigger] old(self).outgoing@[q]) {
                    assert(emission_wired(*old(self), old(self).outgoing@[i as int]));
                }
            }
            if eid >= self.ethers.len() {
                proof {
                    if forall|q: int| 0 <= q < old(self).outgoing@.len()
                        ==> emission_wired(*old(self), #[trigger] old(self).outgoing@[q]) {
                        assert(false);
                    }
                }
                return Err(NetError::UnknownEther);
            }
            let sides = self.ethers[eid].get_interfaces();
            match sides {
                None => {
                    proof {
                        if forall|q: int| 0 <= q < old(self).outgoing@.len()
                            ==> emission_wired(*old(self), #[trigger] old(self).outgoing@[q]) {
                            assert(false);
                        }
                    }
                    return Err(NetError::NotConnected);
                }
                Some((e1, e2)) => {
                    let ghost pre = self.transmissions@;
                    let r1 = self.admit_side(e1, from, pk);
                    match r1 {
                        Err(e) => {
                            proof {
                                if forall|q: int| 0 <= q < old(self).outgoing@.len()
                                    ==> emission_wired(
                                        *old(self), #[trigger] old(self).outgoing@[q]) {
                                    assert(false);
                                }
                            }
                            return Err(e);
                        }
                        Ok(()) => {}
                    }
                    let ghost mid = self.transmissions@;
                    let r2 = self.admit_side(e2, from, pk);
                    match r2 {
                        Err(e) => {
                            proof {
                                if forall|q: int| 0 <= q < old(self).outgoing@.len()
                                    ==> emission_wired(
                                        *old(self), #[trigger] old(self).outgoing@[q]) {
                                    assert(false);
                                }
                            }
                            return Err(e);
                        }
                        Ok(()) => {}
                    }
                    proof {
                        assert(old(self).outgoing@[i as int] == (eid, from, pk));
                        assert(pre =~= mid.subrange(0, pre.len() as int));
                        assert(mid =~= self.transmissions@.subrange(0, mid.len() as int));
                        assert(old(self).transmissions@.is_prefix_of(self.transmissions@)) by {
                            assert(old(self).transmissions@
                                =~= self.transmissions@.subrange(
                                    0, old(self).transmissions@.len() as int));
                        }
                        assert forall|j: int| old(self).transmissions@.len() <= j
                            < self.transmissions@.len() implies ({
                            let t = #[trigger] self.transmissions@[j];
                            &&& t.travelled == 0
                            &&& t.recipient.owner_node != t.packet.current_sender
                            &&& t.distance as int == euclid(t.from, t.to)
                            &&& exists|q: int| 0 <= q < old(self).outgoing@.len()
                                && t.packet == (#[trigger] old(self).outgoing@[q]).2
                                && t.from == old(self).outgoing@[q].1
                        }) by {
                            let t = self.transmissions@[j];
                            if j < pre.len() {
                                assert(t == pre[j]);
                            } else {
                                if j < mid.len() {
                                    assert(t == mid[j]);
                                    assert(t.packet == pk && t.from == from);
                                } else {
                                    assert(t.packet == pk && t.from == from);
                                }
                                assert(t.packet == old(self).outgoing@[i as int].2
                                    && t.from == old(self).outgoing@[i as int].1);
                            }
                        }
                        let base = old(self).transmissions@.len() as int;
                        assert forall|q: int| 0 <= q < i + 1 implies emission_flushed(
                            *old(self),
                            #[trigger] old(self).outgoing@[q],
                            self.transmissions@,
                            base,
                        ) by {
                            let em = old(self).outgoing@[q];
                            if q < i {
                                if (em.0 as int) < old(self).ethers@.len()
                                    && old(self).ethers@[em.0 as int].sides is Some {
                                    let sd = old(self).ethers@[em.0 as int].sides.unwrap();
                                    if sd.0.owner_node != em.2.current_sender {
                                        let j = choose|j: int| base <= j < pre.len()
                                            && (#[trigger] pre[j]).recipient == sd.0
                                            && pre[j].packet == em.2 && pre[j].from == em.1;
                                        assert(self.transmissions@[j] == pre[j]);
                                    }
                                    if sd.1.owner_node != em.2.current_sender {
                                        let j = choose|j: int| base <= j < pre.len()
                                            && (#[trigger] pre[j]).recipient == sd.1
                                            && pre[j].packet == em.2 && pre[j].from == em.1;
                                        assert(self.transmissions@[j] == pre[j]);
                                    }
                                }
                            } else {
                                assert(em == (eid, from, pk));
                                if e1.owner_node != pk.current_sender {
                                    assert(mid.len() == pre.len() + 1);
                                    assert(self.transmissions@[pre.len() as int]
                                        == mid[pre.len() as int]);
                                    assert(mid[pre.len() as int].recipient == e1
                                        && mid[pre.len() as int].packet == pk
                                        && mid[pre.len() as int].from == from);
                                }
                                if e2.owner_node != pk.current_sender {
                                    assert(self.transmissions@.len() == mid.len() + 1);
                                    assert(self.transmissions@[mid.len() as int].recipient == e2
                                        && self.transmissions@[mid.len() as int].packet == pk
                                        && self.transmissions@[mid.len() as int].from == from);
                                }
                            }
                        }
                    }
                }
            }
            i += 1;
        }
        self.outgoing.clear();
        Ok(())
    }

    /// One simulation tick: advance and deliver transmissions, run every
    /// delivered or injected packet through its node's forwarding logic, and
    /// start new transmissions for each emission toward every admitted link
    /// endpoint.  Returns the tick's deliveries in order.  Every transmission
    /// created this tick starts at zero progress and — the admission guard —
    /// never targets the node that emitted it; with drop-everything on, no
    /// transmission is created at all.
    pub fn tick(&mut self, policy: Policy) -> (r: Result<
        Vec<(NodeId, NodeInterfaceId, Packet)>,
        NetError,
    >)
        requires
            old(self).wf(),
            old(self).outgoing@.len() == 0,
            policy.drop_everything || old(self).all_nodes_wired()
                || (old(self).queue_serviceable(policy)
                    && old(self).flight_serviceable(policy)),
        ensures
            final(self).wf(),
            final(self).nodes@ == old(self).nodes@,
            final(self).ethers@ == old(self).ethers@,
            retained_after(old(self).transmissions@).is_prefix_of(final(self).transmissions@),
            forall|j: int| retained_after(old(self).transmissions@).len() <= j
                < final(self).transmissions@.len()
                ==> ({
                    let t = #[trigger] final(self).transmissions@[j];
                    &&& t.travelled == 0
                    &&& t.recipient.owner_node != t.packet.current_sender
                    &&& t.distance as int == euclid(t.from, t.to)
                }),
            policy.drop_everything ==> final(self).transmissions@ == retained_after(
                old(self).transmissions@),
            r matches Ok(dl) ==> ({
                &&& dl@ == delivered_after(old(self).transmissions@)
                &&& final(self).incoming@.len() == 0
                &&& final(self).outgoing@.len() == 0
            }),
            old(self).fully_wired() && (forall|q: int| 0 <= q < old(self).incoming@.len()
                ==> ((#[trigger] old(self).incoming@[q]).0 as int) < old(self).nodes@.len())
                ==> r is Ok,
            old(self).fully_wired() && r is Ok && !policy.drop_everything ==> (forall|q: int|
                0 <= q < old(self).incoming@.len() + delivered_after(
                    old(self).transmissions@).len() ==> ({
                    let e = #[trigger] (old(self).incoming@ + delivered_after(
                        old(self).transmissions@))[q];
                    let base = retained_after(old(self).transmissions@).len() as int;
                    &&& (e.2.destination != e.0 ==> exists|j: int|
                        base <= j < final(self).transmissions@.len()
                        && (#[trigger] final(self).transmissions@[j]).packet.uuid == e.2.uuid
                        && final(self).transmissions@[j].packet.source == e.2.source
                        && final(self).transmissions@[j].packet.destination
                            == e.2.destination
                        && final(self).transmissions@[j].packet.current_sender == e.0)
                    &&& (e.2.destination == e.0 && policy.echo_on_arrival ==> exists|j: int|
                        base <= j < final(self).transmissions@.len()
                        && (#[trigger] final(self).transmissions@[j]).packet.uuid != e.2.uuid
                        && final(self).transmissions@[j].packet.source == e.2.destination
                        && final(self).transmissions@[j].packet.destination == e.2.source
                        && final(self).transmissions@[j].packet.current_sender == e.0)
                })),
    {
        let ghost wired = old(self).fully_wired() && (forall|q: int|
            0 <= q < old(self).incoming@.len()
            ==> ((#[trigger] old(self).incoming@[q]).0 as int) < old(self).nodes@.len());
        let dl = self.advance_and_deliver();
        proof {
            if wired {
                lemma_delivered_ids(old(self).transmissions@, old(self).nodes@.len() as int);
                assert forall|q: int| 0 <= q < self.incoming@.len()
                    implies ((#[trigger] self.incoming@[q]).0 as int) < self.nodes@.len() by {
                    if q < old(self).incoming@.len() {
                        assert(self.incoming@[q] == old(self).incoming@[q]);
                    } else {
                        assert(self.incoming@[q] == delivered_after(
                            old(self).transmissions@)[q - old(self).incoming@.len()]);
                    }
                }
            }
        }
        proof {
            if !policy.drop_everything && !old(self).all_nodes_wired() {
                lemma_delivered_from(old(self).transmissions@);
                assert forall|q: int| 0 <= q < self.incoming@.len() implies ({
                    let e = #[trigger] self.incoming@[q];
                    (e.0 as int) < self.nodes@.len()
                        ==> pk_serviceable(self.nodes@[e.0 as int], policy, e.2)
                }) by {
                    if q < old(self).incoming@.len() {
                        assert(self.incoming@[q] == old(self).incoming@[q]);
                    } else {
                        let q2 = q - old(self).incoming@.len();
                        assert(self.incoming@[q]
                            == delivered_after(old(self).transmissions@)[q2]);
                        let k = choose|k: int| 0 <= k < old(self).transmissions@.len()
                            && (#[trigger] delivered_after(old(self).transmissions@)[q2])
                                == ((#[trigger] old(self).transmissions@[k]).recipient.owner_node,
                                    old(self).transmissions@[k].recipient.id_in_owner,
                                    old(self).transmissions@[k].packet);
                        assert(pk_serviceable(
                            self.nodes@[old(self).transmissions@[k].recipient.owner_node as int],
                            policy,
                            old(self).transmissions@[k].packet,
                        ));
                    }
                }
                assert(self.queue_serviceable(policy));
            }
        }
        let r1 = self.process_incoming(policy);
        match r1 {
            Err(e) => {
                proof {
                    if wired {
                        assert(false);
                    }
                }
                return Err(e);
            }
            Ok(()) => {}
        }
        let ghost emis = self.outgoing@;
        let ghost pre_flush = *self;
        let r2 = self.flush_outgoing();
        match r2 {
            Err(e) => {
                proof {
                    if wired {
                        assert(false);
                    }
                }
                return Err(e);
            }
            Ok(()) => {}
        }
        proof {
            if old(self).fully_wired() && !policy.drop_everything {
                let inputs = old(self).incoming@ + delivered_after(old(self).transmissions@);
                let base = retained_after(old(self).transmissions@).len() as int;
                assert forall|q: int| 0 <= q < inputs.len() implies ({
                    let e = #[trigger] inputs[q];
                    &&& (e.2.destination != e.0 ==> exists|j: int|
                        base <= j < self.transmissions@.len()
                        && (#[trigger] self.transmissions@[j]).packet.uuid == e.2.uuid
                        && self.transmissions@[j].packet.source == e.2.source
                        && self.transmissions@[j].packet.destination == e.2.destination
                        && self.transmissions@[j].packet.current_sender == e.0)
                    &&& (e.2.destination == e.0 && policy.echo_on_arrival ==> exists|j: int|
                        base <= j < self.transmissions@.len()
                        && (#[trigger] self.transmissions@[j]).packet.uuid != e.2.uuid
                        && self.transmissions@[j].packet.source == e.2.destination
                        && self.transmissions@[j].packet.destination == e.2.source
                        && self.transmissions@[j].packet.current_sender == e.0)
                }) by {
                    let e = inputs[q];
                    if e.2.destination != e.0 {
                        let em_j = choose|em_j: int| 0 <= em_j < emis.len()
                            && (#[trigger] emis[em_j]).2.uuid == e.2.uuid
                            && emis[em_j].2.source == e.2.source
                            && emis[em_j].2.destination == e.2.destination
                            && emis[em_j].2.current_sender == e.0;
                        let em = emis[em_j];
                        assert(emission_wired(pre_flush, em));
                        assert(emission_flushed(pre_flush, em, self.transmissions@, base));
                        let sd = pre_flush.ethers@[em.0 as int].sides.unwrap();
                        if sd.0.owner_node != em.2.current_sender {
                            let j = choose|j: int| base <= j < self.transmissions@.len()
                                && (#[trigger] self.transmissions@[j]).recipient == sd.0
                                && self.transmissions@[j].packet == em.2
                                && self.transmissions@[j].from == em.1;
                            assert(self.transmissions@[j].packet.uuid == e.2.uuid);
                        } else {
                            assert(sd.1.owner_node != em.2.current_sender);
                            let j = choose|j: int| base <= j < self.transmissions@.len()
                                && (#[trigger] self.transmissions@[j]).recipient == sd.1
                                && self.transmissions@[j].packet == em.2
                                && self.transmissions@[j].from == em.1;
                            assert(self.transmissions@[j].packet.uuid == e.2.uuid);
                        }
                    }
                    if e.2.destination == e.0 && policy.echo_on_arrival {
                        let em_j = choose|em_j: int| 0 <= em_j < emis.len()
                            && (#[trigger] emis[em_j]).2.uuid != e.2.uuid
                            && emis[em_j].2.source == e.2.destination
                            && emis[em_j].2.destination == e.2.source
                            && emis[em_j].2.current_sender == e.0;
                        let em = emis[em_j];
                        assert(emission_wired(pre_flush, em));
                        assert(emission_flushed(pre_flush, em, self.transmissions@, base));
                        let sd = pre_flush.ethers@[em.0 as int].sides.unwrap();
                        if sd.0.owner_node != em.2.current_sender {
                            let j = choose|j: int| base <= j < self.transmissions@.len()
                                && (#[trigger] self.transmissions@[j]).recipient == sd.0
                                && self.transmissions@[j].packet == em.2
                                && self.transmissions@[j].from == em.1;
                            assert(self.transmissions@[j].packet.uuid != e.2.uuid);
                        } else {
                            assert(sd.1.owner_node != em.2.current_sender);
                            let j = choose|j: int| base <= j < self.transmissions@.len()
                                && (#[trigger] self.transmissions@[j]).recipient == sd.1
                                && self.transmissions@[j].packet == em.2
                                && self.transmissions@[j].from == em.1;
                            assert(self.transmissions@[j].packet.uuid != e.2.uuid);
                        }
                    }
                }
            }
        }
        Ok(dl)
    }
}

/// Delivery is exact: an in-flight transmission advanced by one tick
/// completes exactly when its progress first reaches its distance (a
/// zero-distance transmission completes on its first tick), and a completed
/// transmission is retired, never advanced again.
pub proof fn lemma_delivery_exact(t: Transmission)
    requires
        t_wf(t),
    ensures
        t.distance > 0 ==> (delivers(t) <==> advanced(t).travelled == t.distance),
        t.distance == 0 ==> delivers(t),
        !delivers(t) ==> t_wf(advanced(t)),
{
}

} // verus!
