use consensus_lab::network::network::{Message, NetworkSimulator};
use consensus_lab::primitives::types;
use consensus_lab::primitives::types::{Block, Header};

fn block(n: u64) -> Block {
    let header = Header {
        parent_hash: types::Hash::zero(),
        number: n,
        state_root: types::Hash::zero(),
        extrinsics_root: types::Hash::zero(),
        slot: n,
        author: "A".to_string(),
    };
    Block { header, extrinsics: vec![] }
}

#[test]
fn test_topology_neighbors() {
    let mut sim = NetworkSimulator::new(1);
    sim.register_node("A".to_string());
    sim.register_node("B".to_string());
    sim.register_node("C".to_string());

    sim.add_neighbor("A", "B");
    sim.add_neighbor("B", "C");

    assert_eq!(sim.neighbors.get("A").unwrap(), &vec!["B".to_string()]);
    assert_eq!(sim.neighbors.get("B").unwrap(), &vec!["A".to_string(), "C".to_string()]);
    assert_eq!(sim.neighbors.get("C").unwrap(), &vec!["B".to_string()]);
}

#[test]
fn test_gossip_propagation() {
    let mut sim = NetworkSimulator::new(1);
    sim.register_node("A".to_string());
    sim.register_node("B".to_string());
    sim.add_neighbor("A", "B");

    let header = Header {
        parent_hash: types::Hash::zero(),
        number: 1,
        state_root: types::Hash::zero(),
        extrinsics_root: types::Hash::zero(),
        slot: 1,
        author: "A".to_string(),
    };
    let block = Block { header, extrinsics: vec![] };

    // Gossip from A to B
    sim.gossip_send("A", Message::Block(block), 1);

    // B should have nothing at Slot 1 (due to latency)
    assert!(sim.poll_ingress("B", 1).is_empty());

    // B should receive the block at Slot 2
    let messages = sim.poll_ingress("B", 2);
    assert_eq!(messages.len(), 1);
}

#[test]
fn test_dynamic_topology() {
    let mut sim = NetworkSimulator::new(1);
    sim.register_node("A".to_string());
    sim.register_node("B".to_string());
    sim.add_neighbor("A", "B");
    assert!(sim.neighbors.get("A").unwrap().contains(&"B".to_string()));

    sim.disconnect("A", "B");
    assert!(sim.neighbors.get("A").unwrap().is_empty());
    assert!(sim.neighbors.get("B").unwrap().is_empty());

    sim.connect("A", "B");
    assert!(sim.neighbors.get("A").unwrap().contains(&"B".to_string()));
}

#[test]
fn poll_drains_only_arrived_prefix_in_order() {
    let mut sim = NetworkSimulator::new(2);
    sim.register_node("A".to_string());
    sim.register_node("B".to_string());
    sim.add_neighbor("A", "B");
    sim.gossip_send("A", Message::Block(block(1)), 1);
    sim.gossip_send("A", Message::Block(block(2)), 3);
    assert!(sim.poll_ingress("B", 2).is_empty());
    let first = sim.poll_ingress("B", 4);
    assert_eq!(first.len(), 1);
    match &first[0] {
        Message::Block(b) => assert_eq!(b.header.number, 1),
        _ => panic!("expected a block"),
    }
    let second = sim.poll_ingress("B", 100);
    assert_eq!(second.len(), 1);
    assert!(sim.poll_ingress("B", 100).is_empty());
}

#[test]
fn gossip_reaches_only_neighbours() {
    let mut sim = NetworkSimulator::new(1);
    for id in ["A", "B", "C"] {
        sim.register_node(id.to_string());
    }
    sim.add_neighbor("A", "B");
    sim.gossip_send("A", Message::Block(block(1)), 0);
    assert_eq!(sim.poll_ingress("B", 1).len(), 1);
    assert!(sim.poll_ingress("C", 1).is_empty());
    assert!(sim.poll_ingress("A", 1).is_empty());
    assert!(sim.poll_ingress("unknown", 1).is_empty());
}

#[test]
fn unknown_nodes_leave_topology_unchanged() {
    let mut sim = NetworkSimulator::new(1);
    sim.register_node("A".to_string());
    sim.add_neighbor("A", "Z");
    assert_eq!(sim.neighbors.get("A").unwrap(), &vec!["Z".to_string()]);
    assert!(sim.neighbors.get("Z").is_none());
    sim.disconnect("A", "Z");
    assert!(sim.neighbors.get("A").unwrap().is_empty());
}

#[test]
fn gossip_never_arrives_before_its_latency() {
    let mut sim = NetworkSimulator::new(3);
    sim.register_node("A".to_string());
    sim.register_node("B".to_string());
    sim.add_neighbor("A", "B");
    sim.gossip_send("A", Message::Block(block(1)), 5);
    for slot in 0..8 {
        assert!(sim.poll_ingress("B", slot).is_empty());
    }
    assert_eq!(sim.poll_ingress("B", 8).len(), 1);
    assert!(sim.poll_ingress("B", 9).is_empty());
}

#[test]
fn add_then_disconnect_restores_lists() {
    let mut sim = NetworkSimulator::new(1);
    sim.register_node("A".to_string());
    sim.register_node("B".to_string());
    sim.register_node("C".to_string());
    sim.add_neighbor("A", "C");
    sim.add_neighbor("A", "B");
    sim.disconnect("A", "B");
    assert_eq!(sim.neighbors.get("A").unwrap(), &vec!["C".to_string()]);
    assert!(sim.neighbors.get("B").unwrap().is_empty());
    assert_eq!(sim.neighbors.get("C").unwrap(), &vec!["A".to_string()]);
}
