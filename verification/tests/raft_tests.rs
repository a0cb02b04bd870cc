use lau_distributed_systems::consensus::raft::{replicate_entry, simulate_election, LogEntry, NodeRole, RaftMessage, RaftNode};

fn make_cluster(n: usize) -> Vec<RaftNode> {
    let ids: Vec<String> = (0..n).map(|i| format!("n{}", i)).collect();
    ids.iter()
        .map(|id| {
            let peers: Vec<String> = ids.iter().filter(|p| *p != id).cloned().collect();
            RaftNode::new(id.clone(), peers)
        })
        .collect()
}

#[test]
fn test_follower_becomes_candidate() {
    let mut node = RaftNode::new("n0".into(), vec!["n1".into(), "n2".into()]);
    assert_eq!(node.role, NodeRole::Follower);
    node.start_election();
    assert_eq!(node.role, NodeRole::Candidate);
    assert_eq!(node.current_term, 1);
}

#[test]
fn test_candidate_wins_election() {
    let mut nodes = make_cluster(3);
    simulate_election(&mut nodes, 0);
    assert_eq!(nodes[0].role, NodeRole::Leader);
    assert_eq!(nodes[1].role, NodeRole::Follower);
    assert_eq!(nodes[2].role, NodeRole::Follower);
}

#[test]
fn test_leader_replication() {
    let mut nodes = make_cluster(3);
    simulate_election(&mut nodes, 0);
    assert_eq!(nodes[0].role, NodeRole::Leader);
    replicate_entry(&mut nodes, 0, "set x=1");
    assert_eq!(nodes[0].log.len(), 1);
    assert_eq!(nodes[1].log.len(), 1);
    assert_eq!(nodes[2].log.len(), 1);
    assert_eq!(nodes[1].log[0].command, "set x=1");
}

#[test]
fn test_log_replication_multiple_entries() {
    let mut nodes = make_cluster(3);
    simulate_election(&mut nodes, 0);
    replicate_entry(&mut nodes, 0, "set x=1");
    replicate_entry(&mut nodes, 0, "set y=2");
    assert_eq!(nodes[0].log.len(), 2);
    assert_eq!(nodes[1].log.len(), 2);
    assert_eq!(nodes[2].log.len(), 2);
}

#[test]
fn test_reject_old_term_vote() {
    let mut nodes = make_cluster(3);
    nodes[0].current_term = 5;
    let msg = RaftMessage::RequestVote { term: 3, candidate_id: "n1".into(), last_log_index: 0, last_log_term: 0 };
    let resp = nodes[0].handle_request_vote(&msg);
    if let RaftMessage::VoteResponse { vote_granted, .. } = resp {
        assert!(!vote_granted);
    }
}

#[test]
fn test_state_machine_apply() {
    let mut nodes = make_cluster(3);
    simulate_election(&mut nodes, 0);
    replicate_entry(&mut nodes, 0, "set x=1");
    nodes[0].commit_index = 1;
    while nodes[0].last_applied < nodes[0].commit_index {
        let cmd = nodes[0].log.get(nodes[0].last_applied).cloned();
        if let Some(entry) = cmd {
            nodes[0].state_machine.push(entry.command);
        }
        nodes[0].last_applied += 1;
    }
    assert!(nodes[0].state_machine.contains(&"set x=1".to_string()));
}

#[test]
fn test_five_node_election() {
    let mut nodes = make_cluster(5);
    simulate_election(&mut nodes, 2);
    assert_eq!(nodes[2].role, NodeRole::Leader);
}

fn entry(term: u64, command: &str) -> LogEntry {
    LogEntry { term, command: command.to_string() }
}

#[test]
fn append_rejects_a_missing_or_mismatched_predecessor() {
    let mut n = RaftNode::new("f".into(), vec![]);
    assert!(!n.append_entries(vec![entry(1, "a")], 1, 1, 0));
    assert!(n.append_entries(vec![entry(1, "a")], 0, 0, 0));
    assert!(!n.append_entries(vec![entry(2, "b")], 1, 2, 0));
    assert_eq!(n.log.len(), 1);
}

#[test]
fn append_replaces_conflicting_suffix_and_applies_commits() {
    let mut n = RaftNode::new("f".into(), vec![]);
    assert!(n.append_entries(vec![entry(1, "a"), entry(1, "b"), entry(1, "c")], 0, 0, 0));
    assert!(n.append_entries(vec![entry(2, "x")], 1, 1, 2));
    assert_eq!(n.log.len(), 2);
    assert_eq!(n.log[1].command, "x");
    assert_eq!(n.log[1].term, 2);
    assert_eq!(n.commit_index, 2);
    assert_eq!(n.last_applied, 2);
    assert_eq!(n.state_machine, vec!["a".to_string(), "x".to_string()]);
    // An entry of the same term is kept as it is.
    assert!(n.append_entries(vec![entry(1, "other")], 0, 0, 10));
    assert_eq!(n.log[0].command, "a");
    assert_eq!(n.commit_index, 2);
}

#[test]
fn vote_is_granted_once_per_term() {
    let mut n = RaftNode::new("v".into(), vec!["a".into(), "b".into()]);
    let req_a = RaftMessage::RequestVote { term: 1, candidate_id: "a".into(), last_log_index: 0, last_log_term: 0 };
    let req_b = RaftMessage::RequestVote { term: 1, candidate_id: "b".into(), last_log_index: 0, last_log_term: 0 };
    match n.handle_request_vote(&req_a) {
        RaftMessage::VoteResponse { term, vote_granted, voter_id } => {
            assert!(vote_granted);
            assert_eq!(term, 1);
            assert_eq!(voter_id, "v");
        }
        _ => panic!("expected a vote response"),
    }
    match n.handle_request_vote(&req_b) {
        RaftMessage::VoteResponse { vote_granted, .. } => assert!(!vote_granted),
        _ => panic!("expected a vote response"),
    }
    assert_eq!(n.voted_for, Some("a".to_string()));
}

#[test]
fn higher_term_response_makes_follower() {
    let mut n = RaftNode::new("c".into(), vec!["a".into()]);
    n.start_election();
    n.handle_vote_response(&RaftMessage::VoteResponse { term: 7, vote_granted: false, voter_id: "a".into() });
    assert_eq!(n.role, NodeRole::Follower);
    assert_eq!(n.current_term, 7);
}

#[test]
fn non_leader_does_not_append() {
    let mut nodes = make_cluster(3);
    replicate_entry(&mut nodes, 1, "x");
    for n in &nodes {
        assert!(n.log.is_empty());
    }
    assert!(nodes[1].leader_append("y".into()).is_none());
}

#[test]
fn leader_append_describes_predecessor() {
    let mut nodes = make_cluster(3);
    simulate_election(&mut nodes, 0);
    nodes[0].leader_append("a".into());
    match nodes[0].leader_append("b".into()) {
        Some(RaftMessage::AppendEntries { term, prev_log_index, prev_log_term, entries, leader_commit, .. }) => {
            assert_eq!(term, 1);
            assert_eq!(prev_log_index, 1);
            assert_eq!(prev_log_term, 1);
            assert_eq!(entries.len(), 1);
            assert_eq!(entries[0].command, "b");
            assert_eq!(leader_commit, 0);
        }
        _ => panic!("expected an append request"),
    }
}

#[test]
fn repeated_append_changes_nothing() {
    let mut n = RaftNode::new("f".into(), vec!["l".into()]);
    assert!(n.append_entries(vec![entry(1, "a"), entry(1, "b")], 0, 0, 1));
    let log_after_first: Vec<(u64, String)> = n.log.iter().map(|e| (e.term, e.command.clone())).collect();
    let applied_after_first = n.state_machine.clone();
    assert!(n.append_entries(vec![entry(1, "a"), entry(1, "b")], 0, 0, 1));
    let log_after_second: Vec<(u64, String)> = n.log.iter().map(|e| (e.term, e.command.clone())).collect();
    assert_eq!(log_after_first, log_after_second);
    assert_eq!(n.state_machine, applied_after_first);
    assert_eq!(n.state_machine, vec!["a".to_string()]);
    assert_eq!(n.commit_index, 1);
}

#[test]
fn replication_keeps_all_logs_equal() {
    let mut nodes = make_cluster(4);
    simulate_election(&mut nodes, 1);
    assert_eq!(nodes[1].role, NodeRole::Leader);
    for j in [0usize, 2, 3] {
        assert_eq!(nodes[j].role, NodeRole::Follower);
        assert_eq!(nodes[j].current_term, 1);
        assert_eq!(nodes[j].voted_for, Some("n1".to_string()));
    }
    replicate_entry(&mut nodes, 1, "x");
    replicate_entry(&mut nodes, 1, "y");
    for node in &nodes {
        let log: Vec<(u64, String)> = node.log.iter().map(|e| (e.term, e.command.clone())).collect();
        assert_eq!(log, vec![(1, "x".to_string()), (1, "y".to_string())]);
    }
}

#[test]
fn leader_commits_once_a_majority_holds_the_entry() {
    let mut nodes = make_cluster(3);
    simulate_election(&mut nodes, 0);
    replicate_entry(&mut nodes, 0, "set x=1");
    assert_eq!(nodes[0].commit_index, 1);
    assert_eq!(nodes[0].last_applied, 1);
    assert_eq!(nodes[0].state_machine, vec!["set x=1".to_string()]);
    assert_eq!(nodes[1].commit_index, 0);
    replicate_entry(&mut nodes, 0, "set y=2");
    assert_eq!(nodes[0].commit_index, 2);
    // The second request carries the first commit to the followers.
    assert_eq!(nodes[1].commit_index, 1);
    assert_eq!(nodes[1].state_machine, vec!["set x=1".to_string()]);
}

#[test]
fn leader_without_a_majority_does_not_commit() {
    let mut nodes = make_cluster(3);
    simulate_election(&mut nodes, 0);
    replicate_entry(&mut nodes, 0, "set x=1");
    assert_eq!(nodes[0].commit_index, 1);
    // Both followers now disagree on the entry the next request builds on.
    nodes[1].log[0].term = 9;
    nodes[2].log[0].term = 9;
    replicate_entry(&mut nodes, 0, "set y=2");
    assert_eq!(nodes[0].log.len(), 2);
    assert_eq!(nodes[1].log.len(), 1);
    assert_eq!(nodes[0].commit_index, 1);
}
