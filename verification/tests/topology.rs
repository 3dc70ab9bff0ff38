use netsim::geom::Pos;
use netsim::network::Network;
use netsim::node::{Node, NodeInterface, NodeInterfaceId, NodeKind};
use netsim::NetError;

fn iface(node: usize, peer: usize) -> NodeInterfaceId {
    NodeInterfaceId { node, peer }
}

#[test]
fn node_ids_are_arena_indices() {
    let mut net = Network::new();
    assert_eq!(net.add_endpoint_node(Pos { x: 0, y: 0 }), 0);
    assert_eq!(net.add_router_node(Pos { x: 10, y: 0 }), 1);
    assert_eq!(net.add_router_node(Pos { x: 20, y: 0 }), 2);
    assert_eq!(net.nodes.len(), 3);
    assert_eq!(net.nodes[1].get_id(), 1);
}

#[test]
fn duplicate_interface_is_refused() {
    let mut net = Network::new();
    let n0 = net.add_router_node(Pos { x: 0, y: 0 });
    assert_eq!(net.add_router_interface(n0, iface(0, 1)), Ok(iface(0, 1)));
    assert_eq!(
        net.add_router_interface(n0, iface(0, 1)),
        Err(NetError::DuplicateInterface)
    );
    // a different identifier is still accepted
    assert_eq!(net.add_router_interface(n0, iface(0, 2)), Ok(iface(0, 2)));
}

#[test]
fn interface_on_unknown_node_is_refused() {
    let mut net = Network::new();
    assert_eq!(
        net.add_router_interface(3, iface(3, 0)),
        Err(NetError::UnknownNode)
    );
}

#[test]
fn connect_cable_binds_both_interfaces() {
    let mut net = Network::new();
    let n0 = net.add_router_node(Pos { x: 0, y: 0 });
    let n1 = net.add_router_node(Pos { x: 30, y: 40 });
    let i0 = net.add_router_interface(n0, iface(0, 1)).unwrap();
    let i1 = net.add_router_interface(n1, iface(1, 0)).unwrap();
    assert_eq!(net.connect_cable(((n0, i0), (n1, i1))), Ok(()));
    assert_eq!(net.ethers.len(), 1);
    let c = &net.ethers[0];
    assert_eq!(c.get_id(), 0);
    let (a, b) = c.get_interfaces().unwrap();
    assert_eq!(a.get_to_owner(), (0, iface(0, 1)));
    assert_eq!(b.get_to_owner(), (1, iface(1, 0)));
    assert_eq!(
        net.nodes[0].get_interface(iface(0, 1)).unwrap().get_connected_ether(),
        Some(0)
    );
    assert_eq!(
        net.nodes[1].get_interface(iface(1, 0)).unwrap().get_connected_ether(),
        Some(0)
    );
}

#[test]
fn cable_contributes_one_edge_each_way() {
    let mut net = Network::new();
    let n0 = net.add_router_node(Pos { x: 0, y: 0 });
    let n1 = net.add_router_node(Pos { x: 30, y: 40 });
    let i0 = net.add_router_interface(n0, iface(0, 1)).unwrap();
    let i1 = net.add_router_interface(n1, iface(1, 0)).unwrap();
    net.connect_cable(((n0, i0), (n1, i1))).unwrap();
    let mults = net.ethers[0].get_distance_multipliers();
    assert_eq!(mults, vec![(0, 1, 1), (1, 0, 1)]);
}

#[test]
fn rebinding_a_bound_interface_is_refused() {
    let mut net = Network::new();
    let n0 = net.add_router_node(Pos { x: 0, y: 0 });
    let n1 = net.add_router_node(Pos { x: 10, y: 0 });
    let n2 = net.add_router_node(Pos { x: 20, y: 0 });
    let i01 = net.add_router_interface(n0, iface(0, 1)).unwrap();
    let i10 = net.add_router_interface(n1, iface(1, 0)).unwrap();
    let i21 = net.add_router_interface(n2, iface(2, 1)).unwrap();
    assert_eq!(net.connect_cable(((n0, i01), (n1, i10))), Ok(()));
    // the same interface cannot be wired into a second cable
    assert_eq!(
        net.connect_cable(((n0, i01), (n2, i21))),
        Err(NetError::AlreadyBound)
    );
}

#[test]
fn connecting_an_absent_interface_is_refused() {
    let mut net = Network::new();
    let n0 = net.add_router_node(Pos { x: 0, y: 0 });
    let n1 = net.add_router_node(Pos { x: 10, y: 0 });
    let i0 = net.add_router_interface(n0, iface(0, 1)).unwrap();
    assert_eq!(
        net.connect_cable(((n0, i0), (n1, iface(1, 0)))),
        Err(NetError::UnknownInterface)
    );
}

#[test]
fn interface_binding_is_write_once() {
    let mut ni = NodeInterface::new(4, iface(4, 7));
    assert_eq!(ni.get_connected_ether(), None);
    assert_eq!(ni.connect(2), Ok(()));
    assert_eq!(ni.get_connected_ether(), Some(2));
    assert_eq!(ni.connect(3), Err(NetError::AlreadyBound));
    assert_eq!(ni.get_connected_ether(), Some(2));
}

#[test]
fn locate_node_picks_first_hit_in_arena_order() {
    let mut net = Network::new();
    net.add_router_node(Pos { x: 0, y: 0 });
    net.add_router_node(Pos { x: 20, y: 0 });
    assert_eq!(net.locate_node(Pos { x: 10, y: 0 }), Some(0));
    assert_eq!(net.locate_node(Pos { x: 21, y: 0 }), Some(0));
    assert_eq!(net.locate_node(Pos { x: 40, y: 0 }), Some(1));
    assert_eq!(net.locate_node(Pos { x: 200, y: 200 }), None);
}

#[test]
fn node_hit_test_uses_the_visual_radius() {
    let node = Node::new(0, NodeKind::Endpoint, Pos { x: 100, y: 100 });
    assert!(node.corresponds_to_position(Pos { x: 120, y: 120 }));
    assert!(!node.corresponds_to_position(Pos { x: 125, y: 125 }));
}
