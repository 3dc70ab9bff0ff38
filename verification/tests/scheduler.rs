use netsim::ether::EtherInterface;
use netsim::geom::Pos;
use netsim::network::{Network, Transmission};
use netsim::node::{NodeInterface, NodeInterfaceId};
use netsim::{Packet, Policy};

fn iface(node: usize, peer: usize) -> NodeInterfaceId {
    NodeInterfaceId { node, peer }
}

fn standard() -> Policy {
    Policy { computed_routing: true, echo_on_arrival: false, drop_everything: false }
}

fn wire(net: &mut Network, a: usize, b: usize) {
    let ia = net.add_router_interface(a, iface(a, b)).unwrap();
    let ib = net.add_router_interface(b, iface(b, a)).unwrap();
    net.connect_cable(((a, ia), (b, ib))).unwrap();
}

/// Two endpoints, fifty units apart (a 30-40-50 triangle).
fn two_node_net() -> Network {
    let mut net = Network::new();
    net.add_endpoint_node(Pos { x: 0, y: 0 });
    net.add_endpoint_node(Pos { x: 30, y: 40 });
    wire(&mut net, 0, 1);
    net.calculate_routes().unwrap();
    net
}

#[test]
fn send_queues_a_self_tagged_packet() {
    let mut net = Network::new();
    net.add_router_node(Pos { x: 0, y: 0 });
    net.send(7, 0, 1);
    assert_eq!(net.incoming.len(), 1);
    assert_eq!(
        net.incoming[0],
        (0, iface(0, 0), Packet { uuid: 7, source: 0, current_sender: 0, destination: 1 })
    );
}

#[test]
fn transmission_distance_is_the_truncated_euclidean_distance() {
    let recipient = EtherInterface::from_node_interface(&NodeInterface::new(1, iface(1, 0)));
    let packet = Packet { uuid: 1, source: 0, current_sender: 0, destination: 1 };
    let t = Transmission::new(Pos { x: 0, y: 0 }, Pos { x: 3, y: 4 }, recipient, packet);
    assert_eq!(t.distance, 5);
    assert_eq!(t.travelled, 0);
}

#[test]
fn scenario_terminates_after_exact_delivery() {
    let mut net = two_node_net();
    net.send(7, 0, 1);
    let mut ticks = 0u32;
    let mut delivered = Vec::new();
    loop {
        let dl = net.tick(standard()).unwrap();
        ticks += 1;
        delivered.extend(dl);
        if ticks > 1 && net.get_packets_count() == 0 {
            break;
        }
        assert!(ticks < 200, "scenario failed to terminate");
    }
    // the transmission is created on the first tick and covers one unit per
    // tick; it delivers exactly when its progress reaches the distance of 50
    assert_eq!(ticks, 51);
    assert_eq!(delivered.len(), 1);
    let (to_node, to_iface, packet) = delivered[0];
    assert_eq!(to_node, 1);
    assert_eq!(to_iface, iface(1, 0));
    assert_eq!(packet, Packet { uuid: 7, source: 0, current_sender: 0, destination: 1 });
    assert_eq!(net.incoming.len(), 0);
    assert_eq!(net.get_packets_count(), 0);
}

#[test]
fn delivery_happens_never_before_the_distance_is_covered() {
    let mut net = two_node_net();
    net.send(7, 0, 1);
    for tick in 1..=50 {
        let dl = net.tick(standard()).unwrap();
        assert_eq!(dl.len(), 0, "delivered early at tick {}", tick);
        assert_eq!(net.get_packets_count(), 1);
    }
    let dl = net.tick(standard()).unwrap();
    assert_eq!(dl.len(), 1);
    assert_eq!(net.get_packets_count(), 0);
}

#[test]
fn echo_produces_exactly_one_return_transmission() {
    let mut net = two_node_net();
    let echoing = Policy { computed_routing: true, echo_on_arrival: true, drop_everything: false };
    net.send(7, 0, 1);
    for _ in 1..=51 {
        net.tick(echoing).unwrap();
    }
    // the delivery at node 1 produced exactly one return transmission
    assert_eq!(net.get_packets_count(), 1);
    let back = net.transmissions[0];
    assert_ne!(back.packet.uuid, 7);
    assert_eq!(back.packet.source, 1);
    assert_eq!(back.packet.destination, 0);
    assert_eq!(back.packet.current_sender, 1);
    assert_eq!(back.recipient.owner_node, 0);
    // and it comes home after the same fifty ticks
    let mut returned = Vec::new();
    for _ in 0..50 {
        returned.extend(net.tick(echoing).unwrap());
    }
    assert_eq!(returned.len(), 1);
    assert_eq!(returned[0].0, 0);
    assert_ne!(returned[0].2.uuid, 7);
}

#[test]
fn drop_everything_stops_injection_outright() {
    let mut net = two_node_net();
    let dropping = Policy { computed_routing: true, echo_on_arrival: false, drop_everything: true };
    net.send(7, 0, 1);
    let dl = net.tick(dropping).unwrap();
    assert_eq!(dl.len(), 0);
    assert_eq!(net.get_packets_count(), 0);
    assert_eq!(net.incoming.len(), 0);
}

#[test]
fn drop_everything_stops_transit_deliveries() {
    // a line of three nodes; the packet is dropped on arrival at the middle
    let mut net = Network::new();
    net.add_endpoint_node(Pos { x: 0, y: 0 });
    net.add_router_node(Pos { x: 30, y: 40 });
    net.add_endpoint_node(Pos { x: 60, y: 80 });
    wire(&mut net, 0, 1);
    wire(&mut net, 1, 2);
    net.calculate_routes().unwrap();
    net.send(9, 0, 2);
    for _ in 1..=50 {
        net.tick(standard()).unwrap();
    }
    // the packet is one step from the middle node; drop it on receipt
    let dropping = Policy { computed_routing: true, echo_on_arrival: false, drop_everything: true };
    let dl = net.tick(dropping).unwrap();
    assert_eq!(dl.len(), 1);
    assert_eq!(dl[0].0, 1);
    assert_eq!(net.get_packets_count(), 0);
}

#[test]
fn transit_forward_keeps_identity_on_the_wire() {
    let mut net = Network::new();
    net.add_endpoint_node(Pos { x: 0, y: 0 });
    net.add_router_node(Pos { x: 30, y: 40 });
    net.add_endpoint_node(Pos { x: 60, y: 80 });
    wire(&mut net, 0, 1);
    wire(&mut net, 1, 2);
    net.calculate_routes().unwrap();
    net.send(9, 0, 2);
    for _ in 1..=51 {
        net.tick(standard()).unwrap();
    }
    // after the relay at node 1 the packet keeps uuid, source and destination
    assert_eq!(net.get_packets_count(), 1);
    let hop = net.transmissions[0];
    assert_eq!(hop.packet.uuid, 9);
    assert_eq!(hop.packet.source, 0);
    assert_eq!(hop.packet.destination, 2);
    assert_eq!(hop.packet.current_sender, 1);
    assert_eq!(hop.recipient.owner_node, 2);
}

#[test]
fn zero_distance_transmission_completes_on_the_next_tick() {
    let mut net = Network::new();
    net.add_endpoint_node(Pos { x: 5, y: 5 });
    net.add_endpoint_node(Pos { x: 5, y: 5 });
    wire(&mut net, 0, 1);
    net.calculate_routes().unwrap();
    net.send(3, 0, 1);
    let dl = net.tick(standard()).unwrap();
    assert_eq!(dl.len(), 0);
    assert_eq!(net.get_packets_count(), 1);
    assert_eq!(net.transmissions[0].distance, 0);
    let dl = net.tick(standard()).unwrap();
    assert_eq!(dl.len(), 1);
    assert_eq!(net.get_packets_count(), 0);
}

#[test]
fn broadcast_never_returns_an_emission_to_its_sender() {
    // every created transmission targets a node other than the packet's
    // current sender, so exactly one transmission exists per unicast hop
    let mut net = two_node_net();
    net.send(11, 0, 1);
    net.tick(standard()).unwrap();
    assert_eq!(net.get_packets_count(), 1);
    assert_eq!(net.transmissions[0].recipient.owner_node, 1);
    assert_eq!(net.transmissions[0].packet.current_sender, 0);
}

#[test]
fn progress_position_interpolates_along_the_link() {
    let recipient = EtherInterface::from_node_interface(&NodeInterface::new(1, iface(1, 0)));
    let packet = Packet { uuid: 1, source: 0, current_sender: 0, destination: 1 };
    let mut t = Transmission::new(Pos { x: 0, y: 0 }, Pos { x: 3, y: 4 }, recipient, packet);
    assert_eq!(t.progress_position(), Pos { x: 0, y: 0 });
    t.travelled = 2;
    // 40 hundredths of the way: x = 3 * 40 / 100, y = 4 * 40 / 100
    assert_eq!(t.progress_position(), Pos { x: 1, y: 1 });
    t.travelled = 5;
    assert_eq!(t.progress_position(), Pos { x: 3, y: 4 });
}

#[test]
fn progress_position_handles_negative_coordinates() {
    let recipient = EtherInterface::from_node_interface(&NodeInterface::new(1, iface(1, 0)));
    let packet = Packet { uuid: 1, source: 0, current_sender: 0, destination: 1 };
    let mut t = Transmission::new(Pos { x: 10, y: 0 }, Pos { x: -10, y: 0 }, recipient, packet);
    t.travelled = 5;
    assert_eq!(t.progress_position(), Pos { x: 5, y: 0 });
    t.travelled = 10;
    assert_eq!(t.progress_position(), Pos { x: 0, y: 0 });
}

#[test]
fn progress_position_of_a_zero_distance_link_is_the_endpoint() {
    let recipient = EtherInterface::from_node_interface(&NodeInterface::new(1, iface(1, 0)));
    let packet = Packet { uuid: 1, source: 0, current_sender: 0, destination: 1 };
    let t = Transmission::new(Pos { x: 7, y: 7 }, Pos { x: 7, y: 7 }, recipient, packet);
    assert_eq!(t.progress_position(), Pos { x: 7, y: 7 });
}

#[test]
fn interfaceless_node_consumes_its_own_packet() {
    // a lone node with no interfaces: a self-addressed injection is consumed
    // on receipt, so no hop is ever owed and the tick succeeds
    let mut net = Network::new();
    net.add_endpoint_node(Pos { x: 0, y: 0 });
    net.send(5, 0, 0);
    let dl = net.tick(standard()).unwrap();
    assert_eq!(dl.len(), 0);
    assert_eq!(net.incoming.len(), 0);
    assert_eq!(net.get_packets_count(), 0);
}
