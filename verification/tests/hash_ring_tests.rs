use lau_distributed_systems::hash_ring::HashRing;

#[test]
fn test_add_node() {
    let mut ring = HashRing::new(100);
    ring.add_node("node_a");
    assert_eq!(ring.nodes.len(), 100);
}

#[test]
fn test_remove_node() {
    let mut ring = HashRing::new(50);
    ring.add_node("node_a");
    ring.add_node("node_b");
    assert_eq!(ring.nodes.len(), 100);
    ring.remove_node("node_a");
    assert_eq!(ring.nodes.len(), 50);
}

#[test]
fn test_key_assignment() {
    let mut ring = HashRing::new(100);
    ring.add_node("node_a");
    ring.add_node("node_b");
    let n1 = ring.get_node("my_key");
    let n2 = ring.get_node("my_key");
    assert_eq!(n1, n2);
}

#[test]
fn test_distribution_balanced() {
    let mut ring = HashRing::new(150);
    ring.add_node("a");
    ring.add_node("b");
    ring.add_node("c");
    let keys: Vec<String> = (0..1000).map(|i| format!("key_{}", i)).collect();
    let key_refs: Vec<&str> = keys.iter().map(|s| s.as_str()).collect();
    let dist = ring.distribution(&key_refs);
    for (_, count) in dist.entries() {
        assert!(*count > 100, "Distribution too skewed: {}", count);
    }
}

#[test]
fn test_consistent_hashing_on_remove() {
    let mut ring = HashRing::new(100);
    ring.add_node("a");
    ring.add_node("b");
    ring.add_node("c");
    let before: Vec<String> = (0..100)
        .map(|i| ring.get_node(&format!("key_{}", i)).unwrap_or("").to_string())
        .collect();
    ring.remove_node("b");
    let after: Vec<String> = (0..100)
        .map(|i| ring.get_node(&format!("key_{}", i)).unwrap_or("").to_string())
        .collect();
    let mut unchanged = 0;
    for i in 0..100 {
        if before[i] == after[i] {
            unchanged += 1;
        }
    }
    assert!(unchanged >= 40);
}

#[test]
fn test_empty_ring_returns_none() {
    let ring = HashRing::new(100);
    assert!(ring.get_node("key").is_none());
}

#[test]
fn ring_is_sorted_and_counts_all_keys() {
    let mut ring = HashRing::new(20);
    ring.add_node("x");
    ring.add_node("y");
    for w in ring.nodes.windows(2) {
        assert!(w[0].position <= w[1].position);
    }
    let ids: Vec<usize> = ring.nodes.iter().filter(|n| n.physical_node == "x").map(|n| n.id).collect();
    assert_eq!(ids.len(), 20);
    let keys: Vec<String> = (0..50).map(|i| format!("k{}", i)).collect();
    let key_refs: Vec<&str> = keys.iter().map(|s| s.as_str()).collect();
    let dist = ring.distribution(&key_refs);
    let total: usize = dist.entries().iter().map(|(_, c)| *c).sum();
    assert_eq!(total, 50);
}

#[test]
fn removal_keeps_keys_of_other_nodes() {
    let mut ring = HashRing::new(30);
    ring.add_node("a");
    ring.add_node("b");
    ring.add_node("c");
    let keys: Vec<String> = (0..200).map(|i| format!("item{}", i)).collect();
    let before: Vec<String> = keys.iter().map(|k| ring.get_node(k).unwrap().to_string()).collect();
    ring.remove_node("b");
    for (k, owner) in keys.iter().zip(before.iter()) {
        let now = ring.get_node(k).unwrap();
        assert_ne!(now, "b");
        if owner != "b" {
            assert_eq!(now, owner);
        }
    }
}

#[test]
fn single_node_owns_everything() {
    let mut ring = HashRing::new(3);
    ring.add_node("only");
    assert_eq!(ring.get_node("anything"), Some("only"));
    let dist = ring.distribution(&["p", "q"]);
    assert_eq!(dist.get("only"), Some(&2));
    ring.remove_node("only");
    assert!(ring.get_node("anything").is_none());
    assert_eq!(ring.distribution(&["p"]).len(), 0);
}

#[test]
fn adding_a_node_moves_keys_only_to_it() {
    let mut ring = HashRing::new(25);
    ring.add_node("a");
    ring.add_node("b");
    let keys: Vec<String> = (0..300).map(|i| format!("obj{}", i)).collect();
    let before: Vec<String> = keys.iter().map(|k| ring.get_node(k).unwrap().to_string()).collect();
    ring.add_node("c");
    let mut moved = 0;
    for (k, owner) in keys.iter().zip(before.iter()) {
        let now = ring.get_node(k).unwrap();
        if now != owner {
            assert_eq!(now, "c");
            moved += 1;
        }
    }
    assert!(moved > 0);
}

#[test]
fn adding_a_node_keeps_every_virtual_node() {
    let mut ring = HashRing::new(7);
    ring.add_node("a");
    let mut before: Vec<(u64, String, usize)> =
        ring.nodes.iter().map(|v| (v.position, v.physical_node.clone(), v.id)).collect();
    ring.add_node("b");
    assert_eq!(ring.nodes.len(), 14);
    let mut after: Vec<(u64, String, usize)> =
        ring.nodes.iter().map(|v| (v.position, v.physical_node.clone(), v.id)).collect();
    for w in ring.nodes.windows(2) {
        assert!(w[0].position <= w[1].position);
    }
    after.retain(|t| t.1 == "a");
    before.sort();
    after.sort();
    assert_eq!(before, after);
    assert_eq!(ring.nodes.iter().filter(|v| v.physical_node == "b").count(), 7);
}
