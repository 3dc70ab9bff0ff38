use netsim::geom::Pos;
use netsim::network::Network;
use netsim::node::NodeInterfaceId;
use netsim::{NetError, Policy};

fn iface(node: usize, peer: usize) -> NodeInterfaceId {
    NodeInterfaceId { node, peer }
}

fn standard() -> Policy {
    Policy { computed_routing: true, echo_on_arrival: false, drop_everything: false }
}

fn wire(net: &mut Network, a: usize, b: usize) {
    let ia = net.add_router_interface(a, iface(a, b)).unwrap();
    let ib = net.add_router_interface(b, iface(b, a)).unwrap();
    net.connect_cable(((a, ia), (b, ib))).unwrap();
}

#[test]
fn line_topology_routes_through_the_middle() {
    let mut net = Network::new();
    net.add_endpoint_node(Pos { x: 0, y: 0 });
    net.add_router_node(Pos { x: 30, y: 40 });
    net.add_endpoint_node(Pos { x: 60, y: 80 });
    wire(&mut net, 0, 1);
    wire(&mut net, 1, 2);
    assert_eq!(net.calculate_routes(), Ok(()));
    assert_eq!(net.nodes[0].get_known_route_interface(2, standard()), iface(0, 1));
    assert_eq!(net.nodes[0].get_known_route_interface(1, standard()), iface(0, 1));
    assert_eq!(net.nodes[2].get_known_route_interface(0, standard()), iface(2, 1));
    assert_eq!(net.nodes[1].get_known_route_interface(0, standard()), iface(1, 0));
    assert_eq!(net.nodes[1].get_known_route_interface(2, standard()), iface(1, 2));
}

#[test]
fn triangle_prefers_the_direct_cable() {
    let mut net = Network::new();
    net.add_router_node(Pos { x: 0, y: 0 });
    net.add_router_node(Pos { x: 100, y: 0 });
    net.add_router_node(Pos { x: 50, y: 90 });
    wire(&mut net, 0, 1);
    wire(&mut net, 0, 2);
    wire(&mut net, 1, 2);
    assert_eq!(net.calculate_routes(), Ok(()));
    // 0 -> 1 direct costs 100; via node 2 costs about 205
    assert_eq!(net.nodes[0].get_known_route_interface(1, standard()), iface(0, 1));
    assert_eq!(net.nodes[1].get_known_route_interface(0, standard()), iface(1, 0));
}

#[test]
fn equal_paths_keep_the_earlier_discovered_predecessor() {
    // a 10 x 10 square: two equal-weight paths from 0 to 2; the tie-break
    // keeps the neighbour discovered first in edge order
    let mut net = Network::new();
    net.add_router_node(Pos { x: 0, y: 0 });
    net.add_router_node(Pos { x: 10, y: 0 });
    net.add_router_node(Pos { x: 10, y: 10 });
    net.add_router_node(Pos { x: 0, y: 10 });
    wire(&mut net, 0, 1);
    wire(&mut net, 1, 2);
    wire(&mut net, 0, 3);
    wire(&mut net, 3, 2);
    assert_eq!(net.calculate_routes(), Ok(()));
    assert_eq!(net.nodes[0].get_known_route_interface(2, standard()), iface(0, 1));
}

#[test]
fn a_node_routes_to_itself_via_its_own_id() {
    let mut net = Network::new();
    net.add_router_node(Pos { x: 0, y: 0 });
    net.add_router_node(Pos { x: 10, y: 0 });
    wire(&mut net, 0, 1);
    assert_eq!(net.calculate_routes(), Ok(()));
    assert_eq!(net.nodes[0].get_known_route_interface(0, standard()), iface(0, 0));
}

#[test]
fn disconnected_topology_is_refused() {
    let mut net = Network::new();
    net.add_router_node(Pos { x: 0, y: 0 });
    net.add_router_node(Pos { x: 10, y: 0 });
    assert_eq!(net.calculate_routes(), Err(NetError::Unreachable));
}

#[test]
fn single_node_topology_routes_trivially() {
    let mut net = Network::new();
    net.add_router_node(Pos { x: 0, y: 0 });
    assert_eq!(net.calculate_routes(), Ok(()));
}

#[test]
fn routes_are_recomputed_in_full() {
    // add a shortcut after the first computation; the stale table keeps the
    // old next hop until calculate_routes runs again
    let mut net = Network::new();
    net.add_router_node(Pos { x: 0, y: 0 });
    net.add_router_node(Pos { x: 10, y: 0 });
    net.add_router_node(Pos { x: 20, y: 0 });
    wire(&mut net, 0, 1);
    wire(&mut net, 1, 2);
    assert_eq!(net.calculate_routes(), Ok(()));
    assert_eq!(net.nodes[0].get_known_route_interface(2, standard()), iface(0, 1));
    wire(&mut net, 0, 2);
    assert_eq!(net.nodes[0].get_known_route_interface(2, standard()), iface(0, 1));
    assert_eq!(net.calculate_routes(), Ok(()));
    // the direct cable ties with the two-hop line at weight 20; the strict
    // less-than relaxation keeps the earlier-discovered direct predecessor
    assert_eq!(net.nodes[0].get_known_route_interface(2, standard()), iface(0, 2));
}
