use lau_distributed_systems::cap::CapChoice;
use lau_distributed_systems::coordination::{Agent, AgentFleet, AgentRole};

#[test]
fn test_fleet_creation() {
    let fleet = AgentFleet::new(5);
    assert_eq!(fleet.agents.len(), 5);
    assert_eq!(fleet.raft_nodes.len(), 5);
}

#[test]
fn test_leader_election() {
    let mut fleet = AgentFleet::new(3);
    fleet.elect_leader(0);
    assert!(fleet.leader().is_some());
    assert_eq!(fleet.leader().unwrap().role, AgentRole::Leader);
}

#[test]
fn test_state_proposal() {
    let mut fleet = AgentFleet::new(3);
    fleet.elect_leader(0);
    assert!(fleet.propose_state("x", "42"));
    for agent in &fleet.agents {
        assert_eq!(agent.get("x"), Some("42"));
    }
}

#[test]
fn test_no_proposal_without_leader() {
    let mut fleet = AgentFleet::new(3);
    assert!(!fleet.propose_state("x", "42"));
}

#[test]
fn test_agent_vector_clocks() {
    let mut fleet = AgentFleet::new(3);
    fleet.elect_leader(0);
    fleet.propose_state("x", "1");
    for agent in &fleet.agents {
        assert!(agent.vector_clock.get(&agent.id) >= 1);
    }
}

#[test]
fn test_multiple_proposals() {
    let mut fleet = AgentFleet::new(5);
    fleet.elect_leader(2);
    fleet.propose_state("a", "1");
    fleet.propose_state("b", "2");
    fleet.propose_state("c", "3");
    for agent in &fleet.agents {
        assert_eq!(agent.get("a"), Some("1"));
        assert_eq!(agent.get("b"), Some("2"));
        assert_eq!(agent.get("c"), Some("3"));
    }
}

#[test]
fn fleet_members_are_named_with_all_others_as_peers() {
    let fleet = AgentFleet::new(3);
    assert_eq!(fleet.agents[1].id, "agent_1");
    assert_eq!(fleet.raft_nodes[1].peers, vec!["agent_0".to_string(), "agent_2".to_string()]);
    assert_eq!(fleet.data_stores.len(), 3);
    assert!(fleet.leader().is_none());
}

#[test]
fn proposal_goes_through_the_raft_log() {
    let mut fleet = AgentFleet::new(3);
    fleet.elect_leader(1);
    assert!(fleet.propose_state("mode", "active"));
    for raft in &fleet.raft_nodes {
        assert_eq!(raft.log.len(), 1);
        assert_eq!(raft.log[0].command, "mode=active");
    }
    assert_eq!(fleet.leader().unwrap().id, "agent_1");
}

#[test]
fn agent_set_counts_events() {
    let mut a = Agent::new("me".into());
    a.set("k", "v");
    a.set("k", "w");
    assert_eq!(a.get("k"), Some("w"));
    assert_eq!(a.vector_clock.get("me"), 2);
    assert_eq!(a.get("missing"), None);
}

#[test]
fn synchronize_copies_newest_store_value() {
    let mut fleet = AgentFleet::new(2);
    fleet.data_stores[0].write("k", "old".into(), "agent_0");
    fleet.data_stores[1].write("k", "a".into(), "agent_1");
    fleet.data_stores[1].write("k", "b".into(), "agent_1");
    fleet.synchronize("k");
    assert_eq!(fleet.data_stores[0].read("k").unwrap().value, "b");
    assert_eq!(fleet.data_stores[0].read("k").unwrap().vector_clock.get("agent_1"), Some(&2));
    assert_ne!(CapChoice::Consistency, CapChoice::Availability);
}

#[test]
fn any_member_of_a_new_fleet_wins_its_election() {
    for c in 0..4 {
        let mut fleet = AgentFleet::new(4);
        fleet.elect_leader(c);
        for (i, agent) in fleet.agents.iter().enumerate() {
            if i == c {
                assert_eq!(agent.role, AgentRole::Leader);
            } else {
                assert_eq!(agent.role, AgentRole::Follower);
            }
        }
        assert_eq!(fleet.leader().unwrap().id, format!("agent_{}", c));
    }
}
