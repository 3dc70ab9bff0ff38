use netsim::geom::Pos;
use netsim::network::Network;
use netsim::node::NodeInterfaceId;
use netsim::{NetError, Policy};

fn iface(node: usize, peer: usize) -> NodeInterfaceId {
    NodeInterfaceId { node, peer }
}

fn standard() -> Policy {
    Policy { computed_routing: true, echo_on_arrival: false, drop_everything: false }
}

fn wire(net: &mut Network, a: usize, b: usize) {
    let ia = net.add_router_interface(a, iface(a, b)).unwrap();
    let ib = net.add_router_interface(b, iface(b, a)).unwrap();
    net.connect_cable(((a, ia), (b, ib))).unwrap();
}

#[test]
fn injecting_at_an_unknown_node_fails_the_tick() {
    let mut net = Network::new();
    net.add_router_node(Pos { x: 0, y: 0 });
    net.add_router_node(Pos { x: 10, y: 0 });
    wire(&mut net, 0, 1);
    net.calculate_routes().unwrap();
    net.send(1, 5, 1);
    assert_eq!(net.tick(standard()), Err(NetError::UnknownNode));
}

#[test]
fn a_route_to_an_absent_interface_fails_the_tick() {
    let mut net = Network::new();
    net.add_router_node(Pos { x: 0, y: 0 });
    net.add_router_node(Pos { x: 10, y: 0 });
    wire(&mut net, 0, 1);
    net.calculate_routes().unwrap();
    // overwrite the valid route with one naming an interface node 0 lacks
    net.nodes[0].set_known_route(1, 99);
    net.send(1, 0, 1);
    assert_eq!(net.tick(standard()), Err(NetError::UnknownInterface));
}

#[test]
fn a_route_to_an_unbound_interface_fails_the_tick() {
    let mut net = Network::new();
    net.add_router_node(Pos { x: 0, y: 0 });
    net.add_router_node(Pos { x: 10, y: 0 });
    wire(&mut net, 0, 1);
    net.calculate_routes().unwrap();
    // a second, never-connected interface, and a route that uses it
    net.add_router_interface(0, iface(0, 5)).unwrap();
    net.nodes[0].set_known_route(1, 5);
    net.send(1, 0, 1);
    assert_eq!(net.tick(standard()), Err(NetError::NotConnected));
}

#[test]
fn an_interface_bound_to_an_unknown_link_fails_the_tick() {
    let mut net = Network::new();
    net.add_router_node(Pos { x: 0, y: 0 });
    net.add_router_node(Pos { x: 10, y: 0 });
    wire(&mut net, 0, 1);
    net.calculate_routes().unwrap();
    // bind a fresh interface to a link id no cable carries
    net.add_router_interface(0, iface(0, 5)).unwrap();
    net.nodes[0].connect_interface(iface(0, 5), 7).unwrap();
    net.nodes[0].set_known_route(1, 5);
    net.send(1, 0, 1);
    assert_eq!(net.tick(standard()), Err(NetError::UnknownEther));
}
