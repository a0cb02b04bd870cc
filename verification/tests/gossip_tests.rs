use lau_distributed_systems::gossip::{GossipNetwork, GossipNode};

#[test]
fn test_single_rumor_spread() {
    let mut net = GossipNetwork::new(10, 3);
    net.seed_rumor(0, "rumor1");
    let rounds = net.run_until_convergence(50);
    assert!(rounds <= 50);
    for node in &net.nodes {
        assert!(node.has_rumor("rumor1"));
    }
}

#[test]
fn test_multiple_rumors() {
    let mut net = GossipNetwork::new(10, 2);
    net.seed_rumor(0, "r1");
    net.seed_rumor(3, "r2");
    net.seed_rumor(7, "r3");
    net.run_until_convergence(100);
    for node in &net.nodes {
        assert!(node.has_rumor("r1"));
        assert!(node.has_rumor("r2"));
        assert!(node.has_rumor("r3"));
    }
}

#[test]
fn test_exchange_bidirectional() {
    let mut a = GossipNode::new("a".into());
    let mut b = GossipNode::new("b".into());
    a.add_rumor("r1");
    b.add_rumor("r2");
    a.exchange(&mut b);
    assert!(a.has_rumor("r2"));
    assert!(b.has_rumor("r1"));
}

#[test]
fn test_no_duplicate_exchange() {
    let mut a = GossipNode::new("a".into());
    let mut b = GossipNode::new("b".into());
    a.add_rumor("r1");
    a.exchange(&mut b);
    let (sent, _) = a.exchange(&mut b);
    assert_eq!(sent, 0);
}

#[test]
fn exchange_counts_and_rounds() {
    let mut a = GossipNode::new("a".into());
    let mut b = GossipNode::new("b".into());
    a.add_rumor("x");
    a.add_rumor("y");
    b.add_rumor("y");
    b.add_rumor("z");
    let (sent, received) = a.exchange(&mut b);
    assert_eq!(sent, 1);
    assert_eq!(received, 1);
    assert_eq!(a.round, 1);
    assert_eq!(b.round, 1);
    assert_eq!(a.known_rumors.len(), 3);
    assert_eq!(b.known_rumors.len(), 3);
}

#[test]
fn network_nodes_are_named_and_empty() {
    let net = GossipNetwork::new(12, 1);
    assert_eq!(net.nodes.len(), 12);
    assert_eq!(net.nodes[0].id, "n0");
    assert_eq!(net.nodes[11].id, "n11");
    assert_eq!(net.rumor_census(), (0, 12));
}

#[test]
fn one_round_spreads_to_partners() {
    let mut net = GossipNetwork::new(4, 1);
    net.seed_rumor(0, "r");
    // Node 0 talks to node 2 ((0 + 1 + 1 % 3) % 4), node 1 to 3, node 2 to 0 and node 3 to 1.
    let informed = net.round();
    assert_eq!(informed, 2);
    assert!(net.nodes[0].has_rumor("r"));
    assert!(net.nodes[2].has_rumor("r"));
    assert!(!net.nodes[1].has_rumor("r"));
    assert_eq!(net.nodes[0].round, 2);
}

#[test]
fn convergence_with_nothing_to_spread_takes_one_round() {
    let mut net = GossipNetwork::new(3, 1);
    assert_eq!(net.run_until_convergence(5), 1);
    let mut empty = GossipNetwork::new(0, 3);
    assert_eq!(empty.run_until_convergence(5), 1);
    let mut none = GossipNetwork::new(3, 1);
    assert_eq!(none.run_until_convergence(0), 0);
}

#[test]
fn add_rumor_keeps_existing_version() {
    let mut a = GossipNode::new("a".into());
    a.add_rumor("r");
    a.add_rumor("r");
    assert_eq!(a.known_rumors.len(), 1);
    assert_eq!(a.known_rumors.get("r"), Some(&1));
}

#[test]
fn early_convergence_means_everyone_knows_everything() {
    let mut net = GossipNetwork::new(6, 1);
    net.seed_rumor(0, "x");
    net.seed_rumor(5, "y");
    let rounds = net.run_until_convergence(40);
    assert!(rounds < 40);
    let (total, informed) = net.rumor_census();
    assert_eq!(total, 2);
    assert_eq!(informed, 6);
    for node in &net.nodes {
        assert!(node.has_rumor("x") && node.has_rumor("y"));
        assert_eq!(node.known_rumors.len(), 2);
    }
}

#[test]
fn each_node_gossips_with_distinct_peers() {
    // Three nodes and a large fanout: each node picks both others, once each.
    let mut net = GossipNetwork::new(3, 5);
    net.seed_rumor(0, "r");
    let informed = net.round();
    assert_eq!(informed, 3);
    for node in &net.nodes {
        // Two exchanges started by the node and two started by its peers.
        assert_eq!(node.round, 4);
        assert!(node.has_rumor("r"));
    }
}
