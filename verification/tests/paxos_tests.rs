use lau_distributed_systems::consensus::paxos::{run_paxos, AcceptorState, PaxosMessage, PaxosNode, Proposal, ProposerState};

#[test]
fn test_acceptor_rejects_lower_proposal() {
    let mut a = AcceptorState::new("a1".into());
    a.receive_prepare(5);
    let resp = a.receive_prepare(3);
    assert_eq!(a.promised_number, 5);
    if let PaxosMessage::Promise { proposal_number, .. } = resp {
        assert_eq!(proposal_number, 5);
    }
}

#[test]
fn test_acceptor_accepts_higher_proposal() {
    let mut a = AcceptorState::new("a1".into());
    a.receive_prepare(3);
    let resp = a.receive_prepare(7);
    assert_eq!(a.promised_number, 7);
    if let PaxosMessage::Promise { proposal_number, .. } = resp {
        assert_eq!(proposal_number, 7);
    }
}

#[test]
fn test_accept_rejected_if_lower_than_promised() {
    let mut a = AcceptorState::new("a1".into());
    a.receive_prepare(10);
    let accepted = a.receive_accept(&Proposal { number: 5, value: Some("v".into()) });
    assert!(!accepted);
}

#[test]
fn test_accept_accepted_if_equal_or_higher() {
    let mut a = AcceptorState::new("a1".into());
    a.receive_prepare(5);
    let accepted = a.receive_accept(&Proposal { number: 5, value: Some("v".into()) });
    assert!(accepted);
    assert_eq!(a.accepted_proposal.as_ref().unwrap().value, Some("v".to_string()));
}

#[test]
fn test_full_paxos_consensus() {
    let mut nodes = vec![
        PaxosNode::new("n0".into(), 3),
        PaxosNode::new("n1".into(), 3),
        PaxosNode::new("n2".into(), 3),
    ];
    run_paxos(&mut nodes, 0, "hello");
    assert_eq!(nodes[0].learned_value, Some("hello".to_string()));
}

#[test]
fn test_paxos_safety_no_two_values() {
    let mut nodes = vec![
        PaxosNode::new("n0".into(), 5),
        PaxosNode::new("n1".into(), 5),
        PaxosNode::new("n2".into(), 5),
        PaxosNode::new("n3".into(), 5),
        PaxosNode::new("n4".into(), 5),
    ];
    run_paxos(&mut nodes, 0, "value_a");
    for node in &nodes {
        if let Some(ref v) = node.learned_value {
            assert_eq!(v, "value_a");
        }
    }
}

#[test]
fn test_proposer_quorum() {
    let mut proposer = ProposerState::new("p1".into(), 5);
    let _ = proposer.prepare("test".to_string());
    assert!(proposer
        .receive_promise(&PaxosMessage::Promise { proposal_number: 1, accepted_proposal: None, acceptor_id: "a1".into() })
        .is_none());
    assert!(proposer
        .receive_promise(&PaxosMessage::Promise { proposal_number: 1, accepted_proposal: None, acceptor_id: "a2".into() })
        .is_none());
    assert!(proposer
        .receive_promise(&PaxosMessage::Promise { proposal_number: 1, accepted_proposal: None, acceptor_id: "a3".into() })
        .is_some());
}

#[test]
fn proposer_adopts_highest_accepted_value() {
    let mut proposer = ProposerState::new("p".into(), 3);
    let prep = proposer.prepare("mine".to_string());
    assert_eq!(prep, PaxosMessage::Prepare { proposal_number: 1, proposer_id: "p".into() });
    assert!(proposer
        .receive_promise(&PaxosMessage::Promise {
            proposal_number: 1,
            accepted_proposal: Some(Proposal { number: 2, value: Some("low".into()) }),
            acceptor_id: "a".into(),
        })
        .is_none());
    let accept = proposer.receive_promise(&PaxosMessage::Promise {
        proposal_number: 1,
        accepted_proposal: Some(Proposal { number: 4, value: Some("high".into()) }),
        acceptor_id: "b".into(),
    });
    assert_eq!(
        accept,
        Some(PaxosMessage::Accept {
            proposal: Proposal { number: 1, value: Some("high".into()) },
            proposer_id: "p".into(),
        })
    );
    assert_eq!(proposer.proposed_value, Some("high".to_string()));
}

#[test]
fn proposer_keeps_own_value_without_accepted_proposals() {
    let mut proposer = ProposerState::new("p".into(), 1);
    proposer.prepare("own".to_string());
    let accept = proposer.receive_promise(&PaxosMessage::Promise {
        proposal_number: 1,
        accepted_proposal: None,
        acceptor_id: "a".into(),
    });
    assert_eq!(
        accept,
        Some(PaxosMessage::Accept { proposal: Proposal { number: 1, value: Some("own".into()) }, proposer_id: "p".into() })
    );
}

#[test]
fn node_replies_and_records_messages() {
    let mut n = PaxosNode::new("n".into(), 3);
    let replies = n.receive(&PaxosMessage::Prepare { proposal_number: 4, proposer_id: "p".into() });
    assert_eq!(
        replies,
        vec![PaxosMessage::Promise { proposal_number: 4, accepted_proposal: None, acceptor_id: "n".into() }]
    );
    assert_eq!(n.messages, replies);
    let replies = n.receive(&PaxosMessage::Accept {
        proposal: Proposal { number: 3, value: Some("v".into()) },
        proposer_id: "p".into(),
    });
    assert!(replies.is_empty());
    let replies = n.receive(&PaxosMessage::Accept {
        proposal: Proposal { number: 4, value: Some("v".into()) },
        proposer_id: "p".into(),
    });
    assert_eq!(replies, vec![PaxosMessage::Accepted { proposal_number: 4, acceptor_id: "n".into() }]);
    assert_eq!(n.messages.len(), 2);
    // A node that proposed nothing learns nothing.
    n.receive(&PaxosMessage::Accepted { proposal_number: 4, acceptor_id: "m".into() });
    assert_eq!(n.learned_value, None);
}

#[test]
fn paxos_with_two_nodes_learns_nothing() {
    let mut nodes = vec![PaxosNode::new("n0".into(), 2), PaxosNode::new("n1".into(), 2)];
    run_paxos(&mut nodes, 1, "v");
    assert_eq!(nodes[0].learned_value, None);
    assert_eq!(nodes[1].learned_value, None);
    assert_eq!(nodes[0].acceptor.promised_number, 1);
}

#[test]
fn second_round_keeps_chosen_value() {
    let mut nodes = vec![
        PaxosNode::new("n0".into(), 3),
        PaxosNode::new("n1".into(), 3),
        PaxosNode::new("n2".into(), 3),
    ];
    run_paxos(&mut nodes, 0, "first");
    run_paxos(&mut nodes, 1, "second");
    assert_eq!(nodes[0].learned_value, Some("first".to_string()));
    assert_eq!(nodes[1].learned_value, Some("first".to_string()));
}

#[test]
fn fresh_five_node_run_has_every_acceptor_accept() {
    let mut nodes: Vec<PaxosNode> = (0..5).map(|i| PaxosNode::new(format!("n{}", i), 5)).collect();
    run_paxos(&mut nodes, 2, "v");
    assert_eq!(nodes[2].learned_value, Some("v".to_string()));
    for (i, node) in nodes.iter().enumerate() {
        if i != 2 {
            assert_eq!(node.learned_value, None);
            assert_eq!(
                node.acceptor.accepted_proposal,
                Some(Proposal { number: 1, value: Some("v".to_string()) })
            );
            assert_eq!(node.acceptor.promised_number, 1);
        }
    }
}
