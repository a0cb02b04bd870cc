use lau_distributed_systems::quorum::{QuorumConfig, QuorumNode, QuorumSystem};

#[test]
fn test_quorum_validity() {
    let config = QuorumConfig::new(5, 3, 3);
    assert!(config.is_valid());
}

#[test]
fn test_quorum_invalid() {
    let config = QuorumConfig::new(5, 2, 2);
    assert!(!config.is_valid());
}

#[test]
fn test_read_write_basic() {
    let mut system = QuorumSystem::new(5);
    assert!(system.write("k", "v1"));
    assert_eq!(system.read("k"), Some("v1".to_string()));
}

#[test]
fn test_quorum_intersection() {
    let config = QuorumConfig::new(3, 2, 2);
    assert!(config.is_valid());
}

#[test]
fn test_fault_tolerance() {
    let config = QuorumConfig::new(5, 3, 3);
    assert!(config.tolerates_failures(2));
    assert!(!config.tolerates_failures(3));
}

#[test]
fn test_survives_one_failure() {
    let mut system = QuorumSystem::new(3);
    system.kill_node(0);
    assert!(system.write("k", "v1"));
    assert_eq!(system.read("k"), Some("v1".to_string()));
}

#[test]
fn test_read_after_overwrite() {
    let mut system = QuorumSystem::new(5);
    system.write("k", "v1");
    system.write("k", "v2");
    assert_eq!(system.read("k"), Some("v2".to_string()));
}

#[test]
fn test_cannot_write_with_too_many_failures() {
    let mut system = QuorumSystem::new(3);
    system.kill_node(0);
    system.kill_node(1);
    assert!(!system.write("k", "v1"));
}

#[test]
fn fault_tolerances_are_differences() {
    let config = QuorumConfig::new(7, 2, 5);
    assert_eq!(config.read_fault_tolerance(), 5);
    assert_eq!(config.write_fault_tolerance(), 2);
    assert!(!config.is_valid());
    assert!(QuorumConfig::new(7, 3, 5).is_valid());
    assert!(QuorumConfig::new(3, usize::MAX, usize::MAX).is_valid());
    assert!(!QuorumConfig::new(7, 2, 5).tolerates_failures(3));
}

#[test]
fn writes_stop_at_the_write_quorum() {
    let mut system = QuorumSystem::new(5);
    assert_eq!(system.config.write_quorum, 3);
    system.write("k", "v");
    let stored: Vec<bool> = system.nodes.iter().map(|n| n.data.contains_key("k")).collect();
    assert_eq!(stored, vec![true, true, true, false, false]);
    assert_eq!(system.nodes[0].data.get("k"), Some(&("v".to_string(), 1)));
    system.write("k", "w");
    assert_eq!(system.nodes[2].data.get("k"), Some(&("w".to_string(), 2)));
}

#[test]
fn read_needs_a_read_quorum() {
    let mut system = QuorumSystem::with_quorums(3, 3, 1);
    assert!(system.write("k", "v"));
    assert_eq!(system.read("k"), Some("v".to_string()));
    system.kill_node(2);
    assert_eq!(system.read("k"), None);
    assert_eq!(system.alive_count(), 2);
}

#[test]
fn read_of_unwritten_key_is_empty_value() {
    let system = QuorumSystem::new(3);
    assert_eq!(system.read("nothing"), Some(String::new()));
}

#[test]
fn kill_out_of_range_changes_nothing() {
    let mut system = QuorumSystem::new(2);
    system.kill_node(9);
    assert_eq!(system.alive_count(), 2);
    assert_eq!(system.nodes[1].id, "n1");
}

#[test]
fn new_node_is_alive_and_empty() {
    let n = QuorumNode::new("q".into());
    assert!(n.alive);
    assert_eq!(n.data.len(), 0);
}

#[test]
fn read_after_write_survives_later_failures() {
    // R + W > N: the read quorum of survivors still meets the write quorum.
    let mut system = QuorumSystem::new(5);
    assert!(system.write("k", "v1"));
    system.kill_node(0);
    system.kill_node(1);
    assert_eq!(system.alive_count(), 3);
    assert_eq!(system.read("k"), Some("v1".to_string()));
    // The replicas that missed the write answer with nothing, yet lose.
    assert_eq!(system.nodes[3].data.get("k"), None);
    assert_eq!(system.nodes[2].data.get("k"), Some(&("v1".to_string(), 1)));
}

#[test]
fn read_own_write_with_small_quorums() {
    let mut system = QuorumSystem::with_quorums(5, 1, 1);
    assert!(system.write("k", "a"));
    assert_eq!(system.read("k"), Some("a".to_string()));
    assert!(system.write("k", "b"));
    assert_eq!(system.read("k"), Some("b".to_string()));
}

#[test]
fn tolerated_failures_still_serve() {
    let mut system = QuorumSystem::new(5);
    assert!(system.config.tolerates_failures(2));
    system.kill_node(1);
    system.kill_node(4);
    assert!(system.write("k", "v"));
    assert_eq!(system.read("k"), Some("v".to_string()));
    assert!(system.read("other").is_some());
    assert!(!system.config.tolerates_failures(3));
    system.kill_node(0);
    assert!(!system.write("k", "w"));
    assert_eq!(system.read("k"), None);
}

#[test]
fn failed_write_still_reaches_every_alive_replica() {
    let mut system = QuorumSystem::with_quorums(3, 1, 3);
    system.kill_node(0);
    assert!(!system.write("k", "v"));
    assert_eq!(system.nodes[1].data.get("k"), Some(&("v".to_string(), 1)));
    assert_eq!(system.nodes[2].data.get("k"), Some(&("v".to_string(), 1)));
    assert_eq!(system.read("k"), Some("v".to_string()));
}
