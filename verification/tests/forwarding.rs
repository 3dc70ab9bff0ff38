use netsim::geom::Pos;
use netsim::node::{Node, NodeInterfaceId, NodeKind};
use netsim::rng::fresh_uuid;
use netsim::{Packet, Policy};

fn iface(node: usize, peer: usize) -> NodeInterfaceId {
    NodeInterfaceId { node, peer }
}

fn standard() -> Policy {
    Policy { computed_routing: true, echo_on_arrival: false, drop_everything: false }
}

fn wired_node(id: usize) -> Node {
    let mut node = Node::new(id, NodeKind::Router, Pos { x: 0, y: 0 });
    node.create_interface(iface(id, id + 1)).unwrap();
    node.connect_interface(iface(id, id + 1), 0).unwrap();
    node
}

#[test]
fn admission_guard_rejects_own_emission() {
    let node = wired_node(3);
    let own = Packet { uuid: 1, source: 0, current_sender: 3, destination: 9 };
    let other = Packet { uuid: 1, source: 0, current_sender: 2, destination: 9 };
    assert!(!node.will_receive(iface(3, 4), &own));
    assert!(node.will_receive(iface(3, 4), &other));
}

#[test]
fn transit_forward_preserves_identity() {
    let mut node = wired_node(1);
    node.set_known_route(2, 2);
    let packet = Packet { uuid: 77, source: 0, current_sender: 0, destination: 2 };
    let out = node.receive(iface(1, 0), packet, standard());
    assert_eq!(out.len(), 1);
    let (out_iface, forwarded) = out[0];
    assert_eq!(out_iface, iface(1, 2));
    assert_eq!(forwarded.uuid, 77);
    assert_eq!(forwarded.source, 0);
    assert_eq!(forwarded.destination, 2);
    assert_eq!(forwarded.current_sender, 1);
}

#[test]
fn destination_without_echo_consumes_the_packet() {
    let mut node = wired_node(2);
    node.set_known_route(0, 1);
    let packet = Packet { uuid: 5, source: 0, current_sender: 1, destination: 2 };
    let out = node.receive(iface(2, 3), packet, standard());
    assert_eq!(out.len(), 0);
}

#[test]
fn echo_swaps_endpoints_under_a_fresh_uuid() {
    let mut node = wired_node(2);
    node.set_known_route(0, 1);
    let packet = Packet { uuid: 5, source: 0, current_sender: 1, destination: 2 };
    let policy = Policy { computed_routing: true, echo_on_arrival: true, drop_everything: false };
    let out = node.receive(iface(2, 3), packet, policy);
    assert_eq!(out.len(), 1);
    let (out_iface, echo) = out[0];
    assert_eq!(out_iface, iface(2, 1));
    assert_ne!(echo.uuid, 5);
    assert_eq!(echo.source, 2);
    assert_eq!(echo.destination, 0);
    assert_eq!(echo.current_sender, 2);
}

#[test]
fn drop_everything_discards_transit_and_destined_packets() {
    let mut node = wired_node(1);
    node.set_known_route(2, 2);
    let policy = Policy { computed_routing: true, echo_on_arrival: true, drop_everything: true };
    let transit = Packet { uuid: 8, source: 0, current_sender: 0, destination: 2 };
    let destined = Packet { uuid: 9, source: 0, current_sender: 0, destination: 1 };
    assert_eq!(node.receive(iface(1, 0), transit, policy).len(), 0);
    assert_eq!(node.receive(iface(1, 0), destined, policy).len(), 0);
}

#[test]
fn random_fallback_picks_a_bound_interface() {
    let mut node = wired_node(0);
    // a second, never-bound interface must not be drawn
    node.create_interface(iface(0, 9)).unwrap();
    let policy = Policy { computed_routing: false, echo_on_arrival: false, drop_everything: false };
    // the only bound interface is the only possible choice
    for destination in [1usize, 2, 3] {
        let chosen = node.get_known_route_interface(destination, policy);
        assert_eq!(chosen, iface(0, 1));
    }
}

#[test]
fn unknown_route_falls_back_to_an_existing_interface() {
    // computed routing is on but no route is known for the destination
    let node = wired_node(0);
    let chosen = node.get_known_route_interface(9, standard());
    assert_eq!(chosen, iface(0, 1));
}

#[test]
fn set_known_route_overwrites_the_destination_entry() {
    let mut node = wired_node(0);
    node.set_known_route(5, 1);
    assert_eq!(node.get_known_route_interface(5, standard()), iface(0, 1));
    node.set_known_route(5, 2);
    assert_eq!(node.get_known_route_interface(5, standard()), iface(0, 2));
}

#[test]
fn fresh_uuid_differs_from_what_it_avoids() {
    for avoid in [0u128, 1, 42, u128::MAX] {
        assert_ne!(fresh_uuid(avoid), avoid);
    }
}
