//! Consensus protocols: Paxos and Raft.

pub mod paxos;
pub mod raft;
