//! Simulable distributed-systems algorithms: vector clocks, Paxos, Raft,
//! consistency models, quorums, gossip, consistent hashing, leader election,
//! CAP choices and a coordinated agent fleet.

pub mod strmap;
pub mod naming;
pub mod vector_clock;
pub mod consistency;
pub mod consensus;
pub mod gossip;
pub mod quorum;
pub mod leader_election;
pub mod hash_ring;
pub mod cap;
pub mod coordination;
