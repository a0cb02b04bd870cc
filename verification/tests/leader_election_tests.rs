use lau_distributed_systems::leader_election::{BullyNode, NodeState, RingNode};

#[test]
fn test_bully_highest_alive_wins() {
    let mut nodes: Vec<BullyNode> = (0..5).map(|i| BullyNode::new(i)).collect();
    let coord = BullyNode::start_election(&mut nodes, 0);
    assert_eq!(coord, Some(4));
    assert_eq!(nodes[0].coordinator, Some(4));
}

#[test]
fn test_bully_skips_dead_nodes() {
    let mut nodes: Vec<BullyNode> = (0..5).map(|i| BullyNode::new(i)).collect();
    nodes[4].alive = false;
    nodes[3].alive = false;
    let coord = BullyNode::start_election(&mut nodes, 0);
    assert_eq!(coord, Some(2));
}

#[test]
fn test_bully_mid_node_initiates() {
    let mut nodes: Vec<BullyNode> = (0..5).map(|i| BullyNode::new(i)).collect();
    let coord = BullyNode::start_election(&mut nodes, 2);
    assert_eq!(coord, Some(4));
}

#[test]
fn test_ring_election() {
    let mut nodes: Vec<RingNode> = (0..5).map(|i| RingNode::new(i)).collect();
    let coord = RingNode::start_election(&mut nodes, 0);
    assert_eq!(coord, Some(4));
}

#[test]
fn test_ring_with_dead_nodes() {
    let mut nodes: Vec<RingNode> = (0..5).map(|i| RingNode::new(i)).collect();
    nodes[4].alive = false;
    let coord = RingNode::start_election(&mut nodes, 0);
    assert_eq!(coord, Some(3));
}

#[test]
fn test_ring_single_node() {
    let mut nodes = vec![RingNode::new(0)];
    let coord = RingNode::start_election(&mut nodes, 0);
    assert_eq!(coord, Some(0));
}

#[test]
fn test_bully_single_node() {
    let mut nodes = vec![BullyNode::new(0)];
    let coord = BullyNode::start_election(&mut nodes, 0);
    assert_eq!(coord, Some(0));
}

#[test]
fn dead_initiator_starts_nothing() {
    let mut nodes: Vec<BullyNode> = (0..3).map(|i| BullyNode::new(i)).collect();
    nodes[1].alive = false;
    assert_eq!(BullyNode::start_election(&mut nodes, 1), None);
    assert!(nodes.iter().all(|n| n.coordinator.is_none()));
    let mut ring: Vec<RingNode> = (0..3).map(|i| RingNode::new(i)).collect();
    ring[2].alive = false;
    assert_eq!(RingNode::start_election(&mut ring, 2), None);
    assert!(ring.iter().all(|n| n.coordinator.is_none()));
}

#[test]
fn only_alive_nodes_learn_the_coordinator() {
    let mut nodes: Vec<RingNode> = vec![RingNode::new(7), RingNode::new(3), RingNode::new(9), RingNode::new(5)];
    nodes[2].alive = false;
    assert_eq!(RingNode::start_election(&mut nodes, 3), Some(7));
    assert_eq!(nodes[0].coordinator, Some(7));
    assert_eq!(nodes[1].coordinator, Some(7));
    assert_eq!(nodes[2].coordinator, None);
    assert_eq!(nodes[3].coordinator, Some(7));
    let mut bully: Vec<BullyNode> = vec![BullyNode::new(7), BullyNode::new(3), BullyNode::new(9)];
    bully[2].alive = false;
    assert_eq!(BullyNode::start_election(&mut bully, 0), Some(7));
    assert_eq!(bully[2].coordinator, None);
    assert_eq!(NodeState::Alive, NodeState::Alive);
}

#[test]
fn bully_and_ring_agree_from_any_initiator() {
    for initiator in 0..6 {
        let mut bully: Vec<BullyNode> = [3usize, 9, 1, 7, 4, 2].iter().map(|&i| BullyNode::new(i)).collect();
        let mut ring: Vec<RingNode> = [3usize, 9, 1, 7, 4, 2].iter().map(|&i| RingNode::new(i)).collect();
        bully[1].alive = false;
        ring[1].alive = false;
        let b = BullyNode::start_election(&mut bully, initiator);
        let r = RingNode::start_election(&mut ring, initiator);
        if initiator == 1 {
            assert_eq!(b, None);
            assert_eq!(r, None);
        } else {
            assert_eq!(b, Some(7));
            assert_eq!(r, Some(7));
        }
    }
}
